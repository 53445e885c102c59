use becs::{
    BorrowConflict, Bundle, Component, Entity, Filter, Handle, QueryData, QueryItem, QueryIter,
    Read, TypeInfo, With, Without, World, Write,
};

const A: u64 = 10;
const B: u64 = 20;
const C: u64 = 30;

fn number(id: u64, value: i32) -> Component {
    Component::new(id, TypeInfo::new(4, 4), value.to_le_bytes().to_vec())
}

fn unit(id: u64) -> Component {
    Component::new(id, TypeInfo::new(0, 1), Vec::new())
}

fn bundle(components: Vec<Component>) -> Bundle {
    let mut bundle = Bundle::new();
    for component in components {
        bundle.insert(component);
    }
    bundle
}

fn decode(bytes: &[u8]) -> i32 {
    i32::from_le_bytes([bytes[0], bytes[1], bytes[2], bytes[3]])
}

fn read(world: &World, entity: Entity, id: u64) -> Option<i32> {
    world.get_component(entity, id).map(decode)
}

#[test]
fn filtered_query() {
    let mut world = World::new();
    let first = world.spawn(bundle(vec![number(A, 10), number(B, 20), unit(C)]));
    let second = world.spawn(bundle(vec![number(A, 300), number(B, 400)]));

    let mut walk = world.query_filtered((Write::new(A), Write::new(B)), &With::new(C));
    let mut rows = 0;
    while let Some((a, b)) = walk.try_next(&mut world).unwrap() {
        let mut a = decode(&a);
        let mut b = decode(&b);
        a += b;
        b += a;
        assert!(walk.write(&mut world, A, &a.to_le_bytes()));
        assert!(walk.write(&mut world, B, &b.to_le_bytes()));
        rows += 1;
    }
    walk.finish(&mut world);

    assert_eq!(rows, 1);
    assert_eq!(read(&world, first, A), Some(30));
    assert_eq!(read(&world, first, B), Some(50));
    assert_eq!(read(&world, second, A), Some(300));
    assert_eq!(read(&world, second, B), Some(400));
}

#[test]
fn without_filter_selects_the_other_archetype() {
    let mut world = World::new();
    world.spawn(bundle(vec![number(A, 1), number(B, 2), unit(C)]));
    let plain = world.spawn(bundle(vec![number(A, 3), number(B, 4)]));

    let mut walk = world.query_filtered((Handle, Read::new(A)), &Without::new(C));
    let mut seen = Vec::new();
    while let Some((entity, a)) = walk.try_next(&mut world).unwrap() {
        seen.push((entity, decode(&a)));
    }
    assert_eq!(seen, vec![(plain, 3)]);
}

#[test]
fn every_matching_row_is_visited_once_in_order() {
    let mut world = World::new();
    let e0 = world.spawn(bundle(vec![number(A, 0)]));
    let e1 = world.spawn(bundle(vec![number(A, 1), number(B, 0)]));
    let e2 = world.spawn(bundle(vec![number(A, 2)]));
    let e3 = world.spawn(bundle(vec![number(B, 9)]));
    let e4 = world.spawn(bundle(vec![number(A, 4), number(B, 0)]));

    let mut walk = world.query(Handle);
    let mut all = Vec::new();
    while let Some(entity) = walk.next(&mut world) {
        all.push(entity);
    }
    assert_eq!(all, vec![e0, e2, e1, e4, e3]);

    let mut walk = world.query((Handle, Read::new(A)));
    let mut with_a = Vec::new();
    while let Some((entity, a)) = walk.next(&mut world) {
        with_a.push((entity, decode(&a)));
    }
    assert_eq!(with_a, vec![(e0, 0), (e2, 2), (e1, 1), (e4, 4)]);
}

#[test]
fn empty_archetypes_are_skipped() {
    let mut world = World::new();
    let e = world.spawn(bundle(vec![number(A, 1)]));
    world.insert_component(e, number(B, 2));
    assert_eq!(world.archetype(0).count(), 0);

    let mut walk = world.query(Read::new(A));
    assert_eq!(walk.next(&mut world).map(|a| decode(&a)), Some(1));
    assert_eq!(walk.next(&mut world), None);
    assert_eq!(walk.next(&mut world), None);
}

#[test]
fn required_and_excluded_at_once_matches_nothing() {
    let mut world = World::new();
    world.spawn(bundle(vec![number(A, 1)]));
    world.spawn(bundle(vec![number(A, 1), number(B, 2)]));
    let mut walk = world.query_filtered(Read::new(A), &Without::new(A));
    assert_eq!(walk.try_next(&mut world), Ok(None));
}

#[test]
fn zero_sized_component_is_stored_and_visited() {
    let mut world = World::new();
    let e = world.spawn(bundle(vec![unit(C)]));
    assert!(world.has_component(e, C));
    assert_eq!(world.get_component(e, C), Some(&[][..]));
    let mut walk = world.query((Handle, Read::new(C)));
    assert_eq!(walk.next(&mut world), Some((e, Vec::new())));
    assert_eq!(walk.next(&mut world), None);
}

#[test]
fn nested_exclusive_queries_conflict() {
    let mut world = World::new();
    world.spawn(bundle(vec![number(A, 1)]));

    let mut outer = world.query(Write::new(A));
    assert!(outer.try_next(&mut world).unwrap().is_some());

    let mut inner = world.query(Read::new(A));
    let conflict = inner.try_next(&mut world).unwrap_err();
    assert_eq!(conflict.archetype, 0);

    // once the outer walk has left the archetype the inner one can enter
    assert_eq!(outer.try_next(&mut world), Ok(None));
    assert!(inner.try_next(&mut world).unwrap().is_some());
    inner.finish(&mut world);
    assert!(world.archetype(0).column(A).unwrap().is_unborrowed());
}

#[test]
fn nested_shared_queries_do_not_conflict() {
    let mut world = World::new();
    world.spawn(bundle(vec![number(A, 1)]));
    let mut outer = world.query(Read::new(A));
    let mut inner = world.query(Read::new(A));
    assert!(outer.try_next(&mut world).unwrap().is_some());
    assert!(inner.try_next(&mut world).unwrap().is_some());
    let mut writer = world.query(Write::new(A));
    assert!(writer.try_next(&mut world).is_err());
    outer.finish(&mut world);
    assert!(writer.try_next(&mut world).is_err());
    inner.finish(&mut world);
    assert!(writer.try_next(&mut world).unwrap().is_some());
}

#[test]
fn a_query_that_fetches_a_type_twice_exclusively_conflicts_with_itself() {
    let mut world = World::new();
    world.spawn(bundle(vec![number(A, 1)]));
    let mut walk = world.query((Write::new(A), Write::new(A)));
    assert!(walk.try_next(&mut world).is_err());
    // the borrow taken first was given back
    assert!(world.archetype(0).column(A).unwrap().is_unborrowed());
    let mut walk = world.query((Read::new(A), Write::new(A)));
    assert!(walk.try_next(&mut world).is_err());
    assert!(world.archetype(0).column(A).unwrap().is_unborrowed());
    let mut walk = world.query((Read::new(A), Read::new(A)));
    assert!(walk.try_next(&mut world).unwrap().is_some());
}

#[test]
fn write_needs_the_exclusive_borrow() {
    let mut world = World::new();
    let e = world.spawn(bundle(vec![number(A, 1), number(B, 2)]));
    let mut walk = world.query((Read::new(A), Write::new(B)));
    assert!(!walk.write(&mut world, B, &7i32.to_le_bytes()));
    walk.next(&mut world);
    assert!(!walk.write(&mut world, A, &7i32.to_le_bytes()));
    assert!(!walk.write(&mut world, B, &[1, 2]));
    assert!(walk.write(&mut world, B, &7i32.to_le_bytes()));
    assert_eq!(read(&world, e, A), Some(1));
    assert_eq!(read(&world, e, B), Some(7));
}

#[test]
fn the_cache_examines_only_new_archetypes() {
    let mut world = World::new();
    world.spawn(bundle(vec![number(A, 1)]));
    let mut data = QueryData::new(&world, Read::new(A), ());
    let mut walk = data.iter(&world);
    let mut rows = 0;
    while walk.next(&mut world).is_some() {
        rows += 1;
    }
    assert_eq!(rows, 1);

    world.spawn(bundle(vec![number(A, 2), number(B, 3)]));
    world.spawn(bundle(vec![number(B, 3)]));
    data.update_cache(&world);
    let mut walk = data.iter(&world);
    let mut values = Vec::new();
    while let Some(a) = walk.next(&mut world) {
        values.push(decode(&a));
    }
    assert_eq!(values, vec![1, 2]);
}

#[test]
fn bitmasks_of_filters_and_fetches() {
    let mut world = World::new();
    world.spawn(bundle(vec![number(A, 1), number(B, 2)]));
    assert_eq!(().bitmask(&world), (0, 0));
    assert_eq!(Handle.bitmask(&world), (0, 0));
    assert_eq!(Read::new(A).bitmask(&world), (1, 0));
    assert_eq!(Write::new(B).bitmask(&world), (2, 0));
    assert_eq!(With::new(B).bitmask(&world), (2, 0));
    assert_eq!(Without::new(B).bitmask(&world), (0, 2));
    assert_eq!(With::new(C).bitmask(&world), (0, 0), "not registered");
    assert_eq!(Without::new(C).bitmask(&world), (0, 0), "not registered");
    assert_eq!((Read::new(A), Without::new(B)).bitmask(&world), (1, 2));
    assert_eq!((With::new(A), (With::new(B), Without::new(A))).bitmask(&world), (3, 1));
    assert_eq!(((Read::new(A), Handle), Write::new(B)).bitmask(&world), (3, 0));
}

#[test]
fn fetch_atoms_borrow_and_release() {
    let mut world = World::new();
    world.spawn(bundle(vec![number(A, 1), number(B, 2)]));
    let items = (Read::new(A), Write::new(B));
    assert!(!items.can_write(A));
    assert!(items.can_write(B));
    assert!(!Handle.can_write(A));

    assert!(world.acquire(0, &items));
    assert!(world.acquire(0, &Read::new(A)));
    assert!(!world.acquire(0, &Read::new(B)));
    assert!(!world.acquire(0, &(Read::new(A), Read::new(B))), "the first borrow is given back");
    world.release(0, &Read::new(A));
    assert!(!world.acquire(0, &Write::new(A)));
    world.release(0, &items);
    assert!(world.archetype(0).column(A).unwrap().is_unborrowed());
    assert!(world.archetype(0).column(B).unwrap().is_unborrowed());
    assert!(world.acquire(0, &Handle));
    assert!(!world.acquire(0, &Read::new(C)), "there is no such column");

    let archetype = world.archetype(0);
    assert_eq!(items.fetch(archetype, 0), (1i32.to_le_bytes().to_vec(), 2i32.to_le_bytes().to_vec()));
    assert_eq!(Handle.fetch(archetype, 0), Entity { index: 0, generation: 0 });
}

#[test]
fn chunks_deliver_whole_archetypes() {
    let mut world = World::new();
    world.spawn(bundle(vec![number(A, 1)]));
    world.spawn(bundle(vec![number(A, 2)]));
    let gone = world.spawn(bundle(vec![number(A, 3), unit(C)]));
    world.spawn(bundle(vec![number(A, 4), number(B, 0)]));
    world.despawn_entity(gone);

    let mut walk = world.query(Read::new(A));
    assert_eq!(walk.try_next_chunk(&mut world), Ok(Some(0)));
    assert_eq!(walk.position(), Some((0, 1)));
    let column = world.archetype(0).column(A).unwrap();
    assert!(!column.is_unborrowed());
    assert_eq!(column.as_slice(), &[1, 0, 0, 0, 2, 0, 0, 0]);
    assert_eq!(walk.try_next_chunk(&mut world), Ok(Some(2)), "the empty archetype is skipped");
    assert!(world.archetype(0).column(A).unwrap().is_unborrowed());
    assert_eq!(walk.try_next(&mut world), Ok(None), "the rows of a chunk count as visited");
    assert_eq!(walk.try_next_chunk(&mut world), Ok(None));
    assert!(world.archetype(2).column(A).unwrap().is_unborrowed());
}

#[test]
fn a_chunk_skips_the_rows_left_in_the_current_archetype() {
    let mut world = World::new();
    world.spawn(bundle(vec![number(A, 1)]));
    world.spawn(bundle(vec![number(A, 2)]));
    world.spawn(bundle(vec![number(A, 3), number(B, 0)]));
    let mut walk = world.query(Read::new(A));
    assert_eq!(walk.next(&mut world).map(|a| decode(&a)), Some(1));
    assert_eq!(walk.position(), Some((0, 0)));
    assert_eq!(walk.try_next_chunk(&mut world), Ok(Some(1)));
    assert_eq!(walk.next(&mut world), None);
    assert_eq!(walk.position(), None);
}

#[test]
fn a_blocked_chunk_reports_the_archetype() {
    let mut world = World::new();
    world.spawn(bundle(vec![number(A, 1)]));
    assert!(world.acquire(0, &Write::new(A)));
    let mut walk = world.query(Read::new(A));
    assert_eq!(walk.try_next_chunk(&mut world), Err(BorrowConflict { archetype: 0 }));
    assert_eq!(walk.try_next(&mut world), Err(BorrowConflict { archetype: 0 }));
    world.release(0, &Write::new(A));
    assert_eq!(walk.try_next_chunk(&mut world), Ok(Some(0)));
}

#[test]
fn walks_know_whether_they_fit_the_world() {
    let mut world = World::new();
    world.spawn(bundle(vec![number(A, 1)]));
    let mut walk = world.query(Read::new(A));
    assert!(walk.is_valid_for(&world));
    walk.next(&mut world);
    assert!(walk.is_valid_for(&world));
    walk.finish(&mut world);

    let mut walk = world.query(Read::new(A));
    walk.next(&mut world);
    world.release(0, &Read::new(A));
    world.spawn(bundle(vec![number(A, 2)]));
    assert!(!walk.is_valid_for(&world), "the archetype has grown under the walk");

    let made_up = QueryIter::new(Read::new(A), vec![5]);
    assert!(!made_up.is_valid_for(&world));
    let unsorted = QueryIter::new(Read::new(A), vec![0, 0]);
    assert!(!unsorted.is_valid_for(&world));
    let missing_column = QueryIter::new(Read::new(B), vec![0]);
    world.register_component(B, TypeInfo::new(4, 4));
    assert!(!missing_column.is_valid_for(&world));
    let fine = QueryIter::new(Read::new(A), vec![0]);
    assert!(fine.is_valid_for(&world));
}

#[test]
fn a_filter_type_registered_later_changes_the_match_list() {
    let mut world = World::new();
    world.spawn(bundle(vec![number(A, 1)]));
    let mut data = QueryData::new(&world, Read::new(A), With::new(C));
    let mut walk = data.iter(&world);
    assert!(walk.next(&mut world).is_some(), "an unregistered type filters nothing");
    walk.finish(&mut world);

    world.register_component(C, TypeInfo::new(0, 1));
    let mut walk = data.iter(&world);
    assert_eq!(walk.next(&mut world), None);
    world.spawn(bundle(vec![number(A, 2), unit(C)]));
    let mut walk = data.iter(&world);
    assert_eq!(walk.next(&mut world).map(|a| decode(&a)), Some(2));
    assert_eq!(walk.next(&mut world), None);
}

#[test]
fn the_world_cache_is_keyed_by_both_bitmasks() {
    let mut world = World::new();
    world.spawn(bundle(vec![number(A, 1)]));
    world.spawn(bundle(vec![number(A, 2), number(B, 3)]));
    for _ in 0..2 {
        let mut with = world.query_filtered(Read::new(A), &With::new(B));
        assert_eq!(with.next(&mut world).map(|a| decode(&a)), Some(2));
        assert_eq!(with.next(&mut world), None);
        let mut without = world.query_filtered(Read::new(A), &Without::new(B));
        assert_eq!(without.next(&mut world).map(|a| decode(&a)), Some(1));
        assert_eq!(without.next(&mut world), None);
        world.spawn(bundle(vec![number(B, 9)]));
    }
    world.spawn(bundle(vec![number(A, 5), number(B, 3), unit(C)]));
    let mut with = world.query_filtered(Read::new(A), &With::new(B));
    let mut values = Vec::new();
    while let Some(a) = with.next(&mut world) {
        values.push(decode(&a));
    }
    assert_eq!(values, vec![2, 5]);
}
