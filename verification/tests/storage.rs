use becs::{Archetype, BlobData, BorrowCounter, Bundle, Component, Entity, TypeInfo};

fn info(size: usize) -> TypeInfo {
    TypeInfo::new(size, 1)
}

fn column_of(values: &[[u8; 2]]) -> BlobData {
    let mut column = BlobData::new(info(2));
    for value in values {
        column.push_bytes(value);
    }
    column
}

fn contents(column: &BlobData) -> Vec<Vec<u8>> {
    (0..column.len()).map(|i| column.get_bytes(i).to_vec()).collect()
}

fn entity(index: usize) -> Entity {
    Entity { index, generation: 0 }
}

#[test]
fn type_info_of_a_type() {
    assert_eq!(TypeInfo::of::<u32>(), TypeInfo::new(4, 4));
    assert_eq!(TypeInfo::of::<(u8, u8, u8)>(), TypeInfo { size: 3, align: 1 });
    assert_eq!(TypeInfo::of::<()>(), TypeInfo::new(0, 1));
    assert!(TypeInfo::of::<u64>().validate::<i64>());
    assert!(!TypeInfo::of::<u64>().validate::<u32>());
    assert!(!TypeInfo::new(8, 1).validate::<u64>());
}

#[test]
fn new_column_is_empty_and_unallocated() {
    let column = BlobData::new(info(2));
    assert_eq!(column.len(), 0);
    assert_eq!(column.capacity(), 0);
    assert_eq!(*column.type_info(), info(2));
    assert!(column.is_unborrowed());
    assert_eq!(column.get(0), None);
    assert!(column.as_slice().is_empty());
}

#[test]
fn column_grows_from_eight_by_doubling() {
    let mut column = BlobData::new(info(1));
    let mut capacities = Vec::new();
    for i in 0..33u8 {
        column.push_bytes(&[i]);
        capacities.push(column.capacity());
    }
    assert_eq!(&capacities[0..8], &[8; 8]);
    assert_eq!(&capacities[8..16], &[16; 8]);
    assert_eq!(&capacities[16..32], &[32; 16]);
    assert_eq!(capacities[32], 64);
    assert_eq!(column.len(), 33);
    assert_eq!(column.as_slice().len(), 33);
    assert_eq!(column.get_bytes(32), &[32]);
}

#[test]
fn allocate_sets_the_capacity_and_keeps_the_values() {
    let mut column = column_of(&[[1, 2], [3, 4]]);
    column.allocate(100);
    assert_eq!(column.capacity(), 100);
    assert_eq!(contents(&column), vec![vec![1, 2], vec![3, 4]]);
}

#[test]
fn zero_sized_values_take_no_memory() {
    let mut column = BlobData::new(info(0));
    column.push_bytes(&[]);
    assert_eq!(column.capacity(), usize::MAX);
    column.push(Vec::new());
    column.push_bytes(&[]);
    assert_eq!(column.len(), 3);
    assert_eq!(column.capacity(), usize::MAX);
    assert!(column.as_slice().is_empty());
    assert_eq!(column.get(2), Some(&[][..]));
    assert_eq!(column.get(3), None);
    assert_eq!(column.swap_remove(0), Vec::<u8>::new());
    assert_eq!(column.len(), 2);
    let mut unallocated = BlobData::new(info(0));
    unallocated.allocate(5);
    assert_eq!(unallocated.capacity(), usize::MAX);
}

#[test]
fn values_are_stored_back_to_back() {
    let column = column_of(&[[1, 2], [3, 4], [5, 6]]);
    assert_eq!(column.as_slice(), &[1, 2, 3, 4, 5, 6]);
    assert_eq!(column.get(1), Some(&[3, 4][..]));
    assert_eq!(column.get(3), None);
}

#[test]
fn swap_remove_moves_the_last_value_in() {
    let mut column = column_of(&[[1, 1], [2, 2], [3, 3], [4, 4]]);
    assert_eq!(column.swap_remove(1), vec![2, 2]);
    assert_eq!(contents(&column), vec![vec![1, 1], vec![4, 4], vec![3, 3]]);
    assert_eq!(column.swap_remove(2), vec![3, 3]);
    assert_eq!(contents(&column), vec![vec![1, 1], vec![4, 4]]);
    assert_eq!(column.swap_remove(0), vec![1, 1]);
    assert_eq!(column.swap_remove(0), vec![4, 4]);
    assert_eq!(column.len(), 0);
    assert_eq!(column.capacity(), 8);
}

#[test]
fn swap_and_pop_and_replace() {
    let mut column = column_of(&[[1, 1], [2, 2], [3, 3]]);
    column.swap(0, 2);
    assert_eq!(contents(&column), vec![vec![3, 3], vec![2, 2], vec![1, 1]]);
    assert_eq!(column.pop(), vec![1, 1]);
    assert_eq!(column.replace(0, &[9, 8]), vec![3, 3]);
    assert_eq!(contents(&column), vec![vec![9, 8], vec![2, 2]]);
}

#[test]
fn borrow_counter_rules() {
    let mut counter = BorrowCounter::new();
    assert!(counter.is_unborrowed());
    assert!(counter.borrow());
    assert!(counter.borrow());
    assert!(!counter.borrow_mut());
    counter.release();
    assert!(!counter.borrow_mut());
    counter.release();
    assert!(counter.is_unborrowed());
    assert!(counter.borrow_mut());
    assert!(!counter.borrow());
    assert!(!counter.borrow_mut());
    counter.release();
    assert!(!counter.borrow(), "a shared release does not end an exclusive borrow");
    counter.release_mut();
    assert!(counter.is_unborrowed());
    counter.release();
    counter.release_mut();
    assert!(counter.is_unborrowed());
    assert!(counter.borrow());
    counter.release_mut();
    assert!(!counter.is_unborrowed(), "an exclusive release does not end a shared borrow");
}

#[test]
fn column_borrows() {
    let mut column = column_of(&[[1, 2]]);
    assert!(column.borrow());
    assert!(!column.borrow_mut());
    column.release();
    assert!(column.borrow_mut());
    assert!(!column.borrow());
    column.release_mut();
    assert!(column.is_unborrowed());
    assert_eq!(column.as_slice(), &[1, 2]);
}

#[test]
fn archetype_columns_are_added_once() {
    let mut archetype = Archetype::new(0b101);
    assert_eq!(archetype.bitmask(), 0b101);
    assert_eq!(archetype.count(), 0);
    assert!(archetype.column(7).is_none());
    archetype.with(7, info(2));
    archetype.insert_bytes(7, &[1, 2]);
    archetype.with(7, info(1));
    let column = archetype.column(7).unwrap();
    assert_eq!(*column.type_info(), info(2));
    assert_eq!(column.len(), 1);
}

#[test]
fn archetype_insert_without_column_does_nothing() {
    let mut archetype = Archetype::new(1);
    archetype.insert_bytes(7, &[1, 2]);
    archetype.insert(Component::new(8, info(1), vec![3]));
    assert!(archetype.column(7).is_none());
    assert!(archetype.column(8).is_none());
    assert_eq!(archetype.count(), 0);
}

fn filled() -> Archetype {
    let mut archetype = Archetype::new(0b11);
    archetype.with(1, info(1));
    archetype.with(2, info(2));
    for i in 0..3u8 {
        archetype.insert(Component::new(1, info(1), vec![i]));
        archetype.insert_bytes(2, &[i, i]);
        archetype.insert_row(entity(10 + i as usize));
    }
    archetype
}

#[test]
fn archetype_rows() {
    let archetype = filled();
    assert_eq!(archetype.count(), 3);
    assert_eq!(archetype.entities(), &vec![entity(10), entity(11), entity(12)]);
    assert_eq!(archetype.get(1, 2), Some(&[2][..]));
    assert_eq!(archetype.get_bytes(2, 1), Some(&[1, 1][..]));
    assert_eq!(archetype.get(1, 3), None);
    assert_eq!(archetype.get(3, 0), None);
}

#[test]
fn archetype_swap_remove_reports_the_moved_entity() {
    let mut archetype = filled();
    assert_eq!(archetype.swap_remove(0), Some(entity(12)));
    assert_eq!(archetype.entities(), &vec![entity(12), entity(11)]);
    assert_eq!(archetype.get(1, 0), Some(&[2][..]));
    assert_eq!(archetype.get(2, 0), Some(&[2, 2][..]));
    assert_eq!(archetype.get(2, 1), Some(&[1, 1][..]));
    assert_eq!(archetype.swap_remove(1), None);
    assert_eq!(archetype.swap_remove(5), None);
    assert_eq!(archetype.count(), 1);
    assert_eq!(archetype.column(1).unwrap().len(), 1);
    assert_eq!(archetype.column(2).unwrap().len(), 1);
}

#[test]
fn archetype_move_to_hands_the_row_over() {
    let mut archetype = filled();
    let (moved, row) = archetype.move_to(1);
    assert_eq!(moved, Some(entity(12)));
    assert_eq!(row.len(), 2);
    assert_eq!(row.get(1).unwrap().bytes, vec![1]);
    assert_eq!(row.get(2).unwrap().bytes, vec![1, 1]);
    assert_eq!(row.get(2).unwrap().info, info(2));
    assert_eq!(archetype.entities(), &vec![entity(10), entity(12)]);
    assert_eq!(archetype.get(2, 1), Some(&[2, 2][..]));

    let (moved, row) = archetype.move_to(9);
    assert_eq!(moved, None);
    assert_eq!(row.len(), 0);
    assert_eq!(archetype.count(), 2);
}

#[test]
fn archetype_replace() {
    let mut archetype = filled();
    assert_eq!(archetype.replace(2, 1, &[7, 7]), Some(vec![1, 1]));
    assert_eq!(archetype.get(2, 1), Some(&[7, 7][..]));
    assert_eq!(archetype.get(2, 0), Some(&[0, 0][..]));
    assert_eq!(archetype.replace(2, 3, &[7, 7]), None);
    assert_eq!(archetype.replace(5, 0, &[7, 7]), None);
}

#[test]
fn archetype_borrows() {
    let mut archetype = filled();
    assert!(archetype.borrow(1));
    assert!(!archetype.borrow_mut(1));
    assert!(archetype.borrow_mut(2));
    assert!(!archetype.borrow(2));
    assert!(!archetype.borrow(3), "there is no such column");
    assert!(!archetype.borrow_mut(3));
    archetype.release(1);
    archetype.release_mut(2);
    archetype.release(3);
    assert!(archetype.column(1).unwrap().is_unborrowed());
    assert!(archetype.column(2).unwrap().is_unborrowed());
    assert_eq!(archetype.count(), 3);
}

#[test]
fn bundle_holds_one_value_per_type() {
    let mut bundle = Bundle::new();
    assert_eq!(bundle.len(), 0);
    bundle.insert(Component::new(1, info(1), vec![1]));
    bundle.insert(Component::new(2, info(2), vec![2, 2]));
    bundle.insert(Component::new(1, info(1), vec![9]));
    assert_eq!(bundle.len(), 2);
    assert!(bundle.contains(1));
    assert!(!bundle.contains(3));
    assert_eq!(bundle.get(1).unwrap().bytes, vec![9]);
    assert_eq!(bundle.find(2), Some(1));
    let removed = bundle.remove(1).unwrap();
    assert_eq!((removed.id, removed.bytes), (1, vec![9]));
    assert!(bundle.remove(1).is_none());
    assert_eq!(bundle.len(), 1);
    assert_eq!(bundle.item(0).id, 2);
    bundle.push(Component::new(5, info(0), vec![]));
    assert_eq!(bundle.len(), 2);
}

#[test]
fn bundle_put_creates_missing_columns() {
    let mut bundle = Bundle::new();
    bundle.insert(Component::new(1, info(1), vec![1]));
    bundle.insert(Component::new(2, info(2), vec![2, 3]));
    let mut archetype = Archetype::new(0b11);
    bundle.put(entity(4), &mut archetype);
    assert_eq!(archetype.count(), 1);
    assert_eq!(archetype.entities(), &vec![entity(4)]);
    assert_eq!(archetype.get(1, 0), Some(&[1][..]));
    assert_eq!(archetype.get(2, 0), Some(&[2, 3][..]));

    let mut second = Bundle::new();
    second.insert(Component::new(2, info(2), vec![5, 6]));
    second.insert(Component::new(1, info(1), vec![4]));
    second.put(entity(5), &mut archetype);
    assert_eq!(archetype.count(), 2);
    assert_eq!(archetype.get(1, 1), Some(&[4][..]));
    assert_eq!(archetype.get(2, 1), Some(&[5, 6][..]));
}

#[test]
fn component_validity() {
    assert!(Component::new(1, info(2), vec![0, 0]).is_valid());
    assert!(!Component::new(1, info(2), vec![0]).is_valid());
    assert!(Component::new(1, info(0), vec![]).is_valid());
}
