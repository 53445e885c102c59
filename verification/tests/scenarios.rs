use becs::{Bundle, Component, Entity, Location, TypeInfo, World};

const A: u64 = 1;
const B: u64 = 2;
const C: u64 = 3;

fn number(id: u64, value: i32) -> Component {
    Component::new(id, TypeInfo::new(4, 4), value.to_le_bytes().to_vec())
}

fn unit(id: u64) -> Component {
    Component::new(id, TypeInfo::new(0, 1), Vec::new())
}

fn bundle(components: Vec<Component>) -> Bundle {
    let mut bundle = Bundle::new();
    for component in components {
        bundle.insert(component);
    }
    bundle
}

fn read(world: &World, entity: Entity, id: u64) -> Option<i32> {
    world
        .get_component(entity, id)
        .map(|bytes| i32::from_le_bytes([bytes[0], bytes[1], bytes[2], bytes[3]]))
}

#[test]
fn overwrite_in_place() {
    let mut world = World::new();
    let e = world.spawn(bundle(vec![number(A, 10)]));
    world.insert_component(e, number(A, 77));
    assert_eq!(read(&world, e, A), Some(77));
    assert_eq!(world.archetype_count(), 1);
    assert_eq!(world.archetype(0).count(), 1);
}

#[test]
fn archetypal_move_in() {
    let mut world = World::new();
    let e = world.spawn(bundle(vec![number(A, 1)]));
    world.insert_component(e, number(B, 2));
    assert_eq!(world.archetype_count(), 2);
    let a = world.bit_of(A).unwrap();
    let b = world.bit_of(B).unwrap();
    assert_eq!(world.archetype(0).bitmask(), a);
    assert_eq!(world.archetype(1).bitmask(), a | b);
    assert_eq!(world.archetype(0).count(), 0);
    assert_eq!(world.archetype(1).count(), 1);
    assert_eq!(read(&world, e, A), Some(1));
    assert_eq!(read(&world, e, B), Some(2));
}

#[test]
fn archetypal_move_out() {
    let mut world = World::new();
    let e = world.spawn(bundle(vec![number(A, 1), number(B, 2), unit(C)]));
    world.remove_component(e, B);
    let a = world.bit_of(A).unwrap();
    let c = world.bit_of(C).unwrap();
    assert_eq!(world.archetype_count(), 2);
    assert_eq!(world.archetype(1).bitmask(), a | c);
    assert_eq!(world.archetype(1).count(), 1);
    assert_eq!(world.archetype(0).count(), 0);
    assert!(!world.has_component(e, B));
    assert!(world.has_component(e, C));
    assert_eq!(read(&world, e, A), Some(1));
}

#[test]
fn despawn_and_relocate() {
    let mut world = World::new();
    let e1 = world.spawn(bundle(vec![number(A, 1), number(B, 2)]));
    let e2 = world.spawn(bundle(vec![number(A, 3), number(B, 4)]));
    assert_eq!(world.location_of(e2), Some(Location { archetype: 0, row: 1 }));
    world.despawn_entity(e1);
    assert_eq!(read(&world, e2, A), Some(3));
    assert_eq!(read(&world, e2, B), Some(4));
    assert_eq!(world.location_of(e2), Some(Location { archetype: 0, row: 0 }));
    assert_eq!(world.archetype(0).count(), 1);
    assert!(!world.is_alive(e1));
}

#[test]
fn generational_safety() {
    let mut world = World::new();
    let e = world.spawn(bundle(vec![number(A, 5)]));
    world.despawn_entity(e);
    let e2 = world.spawn(bundle(vec![number(A, 6)]));
    assert_eq!(e2.index(), e.index());
    assert_ne!(e2.generation(), e.generation());
    assert_eq!(read(&world, e, A), None);
    assert_eq!(read(&world, e2, A), Some(6));
}
