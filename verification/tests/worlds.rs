use becs::{
    Bundle, CacheEntry, Component, Entities, Entity, EntityMeta, Location, QueryCache, Read,
    Registration, TypeInfo, With, World,
};

const A: u64 = 100;
const B: u64 = 200;
const C: u64 = 300;

fn number(id: u64, value: i32) -> Component {
    Component::new(id, TypeInfo::new(4, 4), value.to_le_bytes().to_vec())
}

fn unit(id: u64) -> Component {
    Component::new(id, TypeInfo::new(0, 1), Vec::new())
}

fn bundle(components: Vec<Component>) -> Bundle {
    let mut bundle = Bundle::new();
    for component in components {
        bundle.insert(component);
    }
    bundle
}

fn read(world: &World, entity: Entity, id: u64) -> Option<i32> {
    world
        .get_component(entity, id)
        .map(|bytes| i32::from_le_bytes([bytes[0], bytes[1], bytes[2], bytes[3]]))
}

fn counts(world: &World) -> Vec<usize> {
    (0..world.archetype_count()).map(|i| world.archetype(i).count()).collect()
}

#[test]
fn entities_create_and_reuse() {
    let mut entities = Entities::new();
    assert_eq!(entities.len(), 0);
    let first = entities.create();
    let second = entities.create();
    assert_eq!(first, Entity { index: 0, generation: 0 });
    assert_eq!(second, Entity { index: 1, generation: 0 });
    assert!(entities.is_alive(first));
    assert_eq!(
        entities.meta(0),
        EntityMeta { generation: 0, location: Location::empty(), live: true }
    );
    entities.set_location(0, Location { archetype: 3, row: 4 });
    assert_eq!(entities.meta(0).location, Location { archetype: 3, row: 4 });
    assert!(!Location { archetype: 3, row: 4 }.is_empty());
    assert!(Location::empty().is_empty());
    assert!(!Location { archetype: usize::MAX, row: 0 }.is_empty());

    entities.release(0);
    assert!(!entities.is_alive(first));
    assert!(!entities.is_alive(Entity { index: 0, generation: 1 }), "the slot is free");
    assert_eq!(
        entities.meta(0),
        EntityMeta { generation: 1, location: Location::empty(), live: false }
    );
    entities.release(1);
    let third = entities.create();
    assert_eq!(third, Entity { index: 1, generation: 1 }, "the slot freed last is reused first");
    let fourth = entities.create();
    assert_eq!(fourth, Entity { index: 0, generation: 1 });
    let fifth = entities.create();
    assert_eq!(fifth, Entity { index: 2, generation: 0 });
    assert_eq!(entities.len(), 3);
    assert!(!entities.is_alive(Entity { index: 7, generation: 0 }));
}

#[test]
fn registration_gives_out_bits_in_order() {
    let mut world = World::new();
    assert_eq!(world.bit_of(A), None);
    assert_eq!(world.register_component(A, TypeInfo::new(4, 4)), 1);
    assert_eq!(world.register_component(B, TypeInfo::new(1, 1)), 2);
    assert_eq!(world.register_component(A, TypeInfo::new(9, 9)), 1, "registered already");
    assert_eq!(world.register_component(C, TypeInfo::new(0, 1)), 4);
    assert_eq!(world.bit_of(B), Some(2));
    assert_eq!(world.type_info(A), Some(TypeInfo::new(4, 4)));
    assert_eq!(world.type_info(7), None);
    assert_eq!(world.component_types(), &vec![A, B, C]);
    assert_eq!(Registration { position: 1, info: TypeInfo::new(1, 1) }.position, 1);
}

#[test]
fn sixty_four_component_types_and_no_more() {
    let mut world = World::new();
    for id in 0..64u64 {
        assert!(world.can_register(id));
        let entity = world.spawn(bundle(vec![number(id, id as i32)]));
        assert_eq!(read(&world, entity, id), Some(id as i32));
        assert_eq!(world.bit_of(id), Some(1u64 << id));
    }
    assert_eq!(world.archetype_count(), 64);
    assert!(!world.can_register(64));
    assert!(world.can_register(63));
    assert!(!world.can_spawn(&bundle(vec![number(64, 0)])));
    assert!(world.can_spawn(&bundle(vec![number(0, 0), number(63, 0)])));
    let all = world.spawn(bundle((0..64u64).map(|id| number(id, 1)).collect()));
    assert_eq!(world.archetype_of(all).unwrap().bitmask(), u64::MAX);
}

#[test]
fn can_spawn_checks_room_and_layouts() {
    let mut world = World::new();
    for id in 0..62u64 {
        world.register_component(id, TypeInfo::new(4, 4));
    }
    assert!(world.can_spawn(&bundle(vec![number(62, 0), number(63, 0)])));
    assert!(world.can_spawn(&bundle(vec![number(0, 0), number(62, 0), number(63, 0)])));
    assert!(!world.can_spawn(&bundle(vec![number(62, 0), number(63, 0), number(64, 0)])));
    assert!(!world.can_spawn(&bundle(vec![unit(0)])), "registered with another layout");
    assert!(world.can_spawn(&Bundle::new()));
}

#[test]
fn spawn_places_rows_by_component_set() {
    let mut world = World::new();
    let e1 = world.spawn(bundle(vec![number(A, 1), number(B, 2)]));
    let e2 = world.spawn(bundle(vec![number(B, 4), number(A, 3)]));
    let e3 = world.spawn(bundle(vec![number(A, 5)]));
    assert_eq!(world.archetype_count(), 2);
    assert_eq!(counts(&world), vec![2, 1]);
    assert_eq!(world.location_of(e1), Some(Location { archetype: 0, row: 0 }));
    assert_eq!(world.location_of(e2), Some(Location { archetype: 0, row: 1 }));
    assert_eq!(world.location_of(e3), Some(Location { archetype: 1, row: 0 }));
    assert_eq!(world.archetype(0).entities(), &vec![e1, e2]);
    assert_eq!(read(&world, e2, A), Some(3));
    assert_eq!(read(&world, e2, B), Some(4));
    assert_eq!(read(&world, e3, B), None);
    assert!(world.has_component(e3, A));
    assert!(!world.has_component(e3, B));
    assert!(!world.has_component(e3, C), "never registered");
}

#[test]
fn spawn_no_register_uses_registered_types() {
    let mut world = World::new();
    world.register_component(A, TypeInfo::new(4, 4));
    world.register_component(B, TypeInfo::new(4, 4));
    let entity = world.spawn_no_register(bundle(vec![number(B, 7)]));
    assert_eq!(world.archetype_of(entity).unwrap().bitmask(), 2);
    assert_eq!(read(&world, entity, B), Some(7));
    assert_eq!(bundle(vec![number(A, 1), number(B, 2)]).bitmask(&world), 3);
}

#[test]
fn spawn_empty_has_no_row() {
    let mut world = World::new();
    let entity = world.spawn_empty();
    assert!(world.is_alive(entity));
    assert!(world.is_empty(entity));
    assert_eq!(world.location_of(entity), Some(Location::empty()));
    assert!(world.archetype_of(entity).is_none());
    assert_eq!(world.archetype_count(), 0);
    assert_eq!(world.get_component(entity, A), None);

    world.insert_component(entity, number(A, 5));
    assert!(!world.is_empty(entity));
    assert_eq!(read(&world, entity, A), Some(5));
    assert_eq!(world.archetype_of(entity).unwrap().bitmask(), 1);
}

#[test]
fn insert_then_get_returns_the_bytes() {
    let mut world = World::new();
    let entity = world.spawn(bundle(vec![number(A, 1)]));
    let value = Component::new(B, TypeInfo::new(3, 1), vec![0xAA, 0xBB, 0xCC]);
    world.insert_component(entity, value);
    assert_eq!(world.get_component(entity, B), Some(&[0xAA, 0xBB, 0xCC][..]));
}

#[test]
fn inserting_twice_keeps_the_second_value() {
    let mut world = World::new();
    let entity = world.spawn(bundle(vec![number(A, 1)]));
    world.insert_component(entity, number(B, 10));
    world.insert_component(entity, number(B, 20));
    assert_eq!(read(&world, entity, B), Some(20));
    assert_eq!(read(&world, entity, A), Some(1));
    assert_eq!(counts(&world), vec![0, 1]);
}

#[test]
fn insert_then_remove_leaves_no_component() {
    let mut world = World::new();
    let entity = world.spawn(bundle(vec![number(A, 1)]));
    world.insert_component(entity, number(B, 10));
    world.remove_component(entity, B);
    assert!(!world.has_component(entity, B));
    assert_eq!(read(&world, entity, B), None);
    assert_eq!(read(&world, entity, A), Some(1));
    assert_eq!(world.location_of(entity), Some(Location { archetype: 0, row: 0 }));
    assert_eq!(counts(&world), vec![1, 0]);
}

#[test]
fn insert_moves_the_last_row_into_the_gap() {
    let mut world = World::new();
    let e1 = world.spawn(bundle(vec![number(A, 1)]));
    let e2 = world.spawn(bundle(vec![number(A, 2)]));
    let e3 = world.spawn(bundle(vec![number(A, 3)]));
    world.insert_component(e1, number(B, 10));
    assert_eq!(world.location_of(e3), Some(Location { archetype: 0, row: 0 }));
    assert_eq!(world.location_of(e2), Some(Location { archetype: 0, row: 1 }));
    assert_eq!(world.location_of(e1), Some(Location { archetype: 1, row: 0 }));
    assert_eq!(world.archetype(0).entities(), &vec![e3, e2]);
    assert_eq!((read(&world, e1, A), read(&world, e1, B)), (Some(1), Some(10)));
    assert_eq!(read(&world, e2, A), Some(2));
    assert_eq!(read(&world, e3, A), Some(3));
}

#[test]
fn removing_the_only_component_leaves_the_entity_without_row() {
    let mut world = World::new();
    let e1 = world.spawn(bundle(vec![number(A, 1)]));
    let e2 = world.spawn(bundle(vec![number(A, 2)]));
    world.remove_component(e1, A);
    assert!(world.is_alive(e1));
    assert!(world.is_empty(e1));
    assert_eq!(world.archetype_count(), 1);
    assert_eq!(counts(&world), vec![1]);
    assert_eq!(world.location_of(e2), Some(Location { archetype: 0, row: 0 }));
    assert_eq!(read(&world, e2, A), Some(2));
}

#[test]
fn remove_does_nothing_without_the_component() {
    let mut world = World::new();
    let entity = world.spawn(bundle(vec![number(A, 1)]));
    world.register_component(B, TypeInfo::new(4, 4));
    world.remove_component(entity, B);
    world.remove_component(entity, C);
    let empty = world.spawn_empty();
    world.remove_component(empty, A);
    world.remove_component(Entity { index: 9, generation: 0 }, A);
    assert_eq!(read(&world, entity, A), Some(1));
    assert_eq!(counts(&world), vec![1]);
    assert!(world.is_empty(empty));
}

#[test]
fn stale_handles_are_ignored() {
    let mut world = World::new();
    let old = world.spawn(bundle(vec![number(A, 1)]));
    world.despawn_entity(old);
    let new = world.spawn(bundle(vec![number(A, 2)]));
    assert_eq!(new.index(), old.index());
    assert_eq!(new.generation(), old.generation() + 1);

    world.insert_component(old, number(A, 99));
    world.insert_component(old, number(B, 99));
    assert_eq!(world.bit_of(B), None, "nothing is registered for a dead handle");
    world.remove_component(old, A);
    world.despawn_entity(old);
    assert!(!world.set_component(old, A, &5i32.to_le_bytes()));
    assert!(!world.is_alive(old));
    assert!(!world.has_component(old, A));
    assert_eq!(world.location_of(old), None);
    assert!(world.archetype_of(old).is_none());
    assert_eq!(read(&world, new, A), Some(2));
    assert_eq!(counts(&world), vec![1]);

    let forged = Entity { index: 5, generation: 0 };
    world.insert_component(forged, number(A, 1));
    world.despawn_entity(forged);
    assert_eq!(counts(&world), vec![1]);
}

#[test]
fn a_freed_slot_is_dead_under_every_generation() {
    let mut world = World::new();
    let entity = world.spawn(bundle(vec![number(A, 1)]));
    world.despawn_entity(entity);
    let forged = Entity { index: entity.index(), generation: entity.generation() + 1 };
    assert!(!world.is_alive(forged));
    world.insert_component(forged, number(A, 3));
    assert_eq!(counts(&world), vec![0]);
    let next = world.spawn_empty();
    assert_eq!(next, forged);
    assert!(world.is_empty(next));
}

#[test]
fn despawn_of_an_entity_without_components_frees_its_slot() {
    let mut world = World::new();
    let entity = world.spawn_empty();
    world.despawn_entity(entity);
    assert!(!world.is_alive(entity));
    let next = world.spawn_empty();
    assert_eq!(next, Entity { index: entity.index(), generation: entity.generation() + 1 });
}

#[test]
fn spawn_then_despawn_restores_the_counts() {
    let mut world = World::new();
    world.spawn(bundle(vec![number(A, 1)]));
    world.spawn(bundle(vec![number(A, 1), number(B, 2)]));
    let before = counts(&world);
    let known = world.spawn(bundle(vec![number(A, 7), number(B, 8)]));
    world.despawn_entity(known);
    assert_eq!(counts(&world), before);
    let fresh = world.spawn(bundle(vec![number(B, 7), unit(C)]));
    world.despawn_entity(fresh);
    assert_eq!(counts(&world), vec![1, 1, 0]);
}

#[test]
fn locations_and_rows_point_at_each_other() {
    let mut world = World::new();
    let mut live = Vec::new();
    for i in 0..12 {
        let mut components = vec![number(A, i)];
        if i % 2 == 0 {
            components.push(number(B, i));
        }
        if i % 3 == 0 {
            components.push(unit(C));
        }
        live.push(world.spawn(bundle(components)));
    }
    world.despawn_entity(live.remove(3));
    world.remove_component(live[0], A);
    world.insert_component(live[5], number(B, 1));
    world.despawn_entity(live.remove(7));
    world.remove_component(live[2], B);
    live.push(world.spawn_empty());

    for entity in &live {
        let location = world.location_of(*entity).unwrap();
        if !location.is_empty() {
            assert_eq!(world.archetype(location.archetype).entities()[location.row], *entity);
        }
    }
    let mut rows = 0;
    for index in 0..world.archetype_count() {
        let archetype = world.archetype(index);
        assert_eq!(archetype.count(), archetype.entities().len());
        for (row, entity) in archetype.entities().iter().enumerate() {
            assert_eq!(world.location_of(*entity), Some(Location { archetype: index, row }));
            rows += 1;
        }
        for id in [A, B, C] {
            let bit = world.bit_of(id).unwrap();
            match archetype.column(id) {
                Some(column) => {
                    assert_eq!(archetype.bitmask() & bit, bit);
                    assert_eq!(column.len(), archetype.count());
                }
                None => assert_eq!(archetype.bitmask() & bit, 0),
            }
        }
        assert_eq!(archetype.bitmask() >> 3, 0);
    }
    assert_eq!(rows, live.iter().filter(|e| !world.is_empty(**e)).count());
}

#[test]
fn no_two_archetypes_share_a_bitmask() {
    let mut world = World::new();
    let e = world.spawn(bundle(vec![number(A, 1)]));
    world.insert_component(e, number(B, 1));
    world.remove_component(e, B);
    world.insert_component(e, number(B, 1));
    world.spawn(bundle(vec![number(B, 1), number(A, 1)]));
    let masks: Vec<u64> = (0..world.archetype_count()).map(|i| world.archetype(i).bitmask()).collect();
    assert_eq!(masks, vec![1, 3]);
}

#[test]
fn set_component_overwrites_in_place() {
    let mut world = World::new();
    let entity = world.spawn(bundle(vec![number(A, 1)]));
    assert!(world.set_component(entity, A, &9i32.to_le_bytes()));
    assert_eq!(read(&world, entity, A), Some(9));
    assert!(!world.set_component(entity, A, &[1, 2, 3]), "wrong size");
    assert!(!world.set_component(entity, B, &9i32.to_le_bytes()), "no such component");
    assert_eq!(read(&world, entity, A), Some(9));
}

#[test]
fn cache_entries() {
    let entry = CacheEntry::new();
    assert_eq!(entry.high_water_mark, 0);
    assert!(entry.archetypes.is_empty());

    let mut cache = QueryCache::new();
    assert!(cache.get(1, 2).is_none());
    cache.insert(1, 2, 3, vec![0, 2]);
    cache.insert(2, 1, 1, vec![0]);
    assert_eq!(cache.get(1, 2).unwrap().archetypes, vec![0, 2]);
    assert_eq!(cache.get(1, 2).unwrap().high_water_mark, 3);
    assert_eq!(cache.get(2, 1).unwrap().archetypes, vec![0]);
    assert!(cache.get(1, 1).is_none());
    cache.insert(1, 2, 4, vec![0, 2, 3]);
    assert_eq!(cache.get(1, 2).unwrap().high_water_mark, 4);

    let found = cache.get_or_insert_with(2, 1, CacheEntry::new);
    assert_eq!(found.high_water_mark, 1);
    found.high_water_mark = 5;
    assert_eq!(cache.get(2, 1).unwrap().high_water_mark, 5);
    let made = cache.get_or_insert_with(7, 7, || CacheEntry { high_water_mark: 9, archetypes: vec![8] });
    assert_eq!(made.archetypes, vec![8]);
    assert_eq!(cache.get(7, 7).unwrap().high_water_mark, 9);
    assert_eq!(cache.remove(7, 7).unwrap().high_water_mark, 9);
    assert!(cache.remove(7, 7).is_none());
    assert!(cache.get(u64::MAX, 0).is_none());
    cache.insert(u64::MAX, 0, 0, vec![]);
    assert!(cache.get(u64::MAX, 0).is_some());
    assert!(cache.get(0, u64::MAX).is_none());
}

#[test]
fn cache_entry_update_lists_the_matches() {
    let mut world = World::new();
    world.spawn(bundle(vec![number(A, 1)]));
    world.spawn(bundle(vec![number(A, 1), number(B, 1)]));
    world.spawn(bundle(vec![number(B, 1)]));
    world.spawn(bundle(vec![number(A, 1), unit(C)]));
    let archetypes: Vec<_> = (0..4).map(|i| world.archetype(i).bitmask()).collect();
    assert_eq!(archetypes, vec![1, 3, 2, 5]);

    let mut walk = world.query_filtered(Read::new(A), &With::new(C));
    assert_eq!(walk.next(&mut world).map(|a| a.len()), Some(4));
    assert_eq!(walk.next(&mut world), None);
}
