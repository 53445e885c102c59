//! Queries: what to fetch from every matching row, and how to filter the
//! archetypes.

use vstd::prelude::*;
use crate::archetype::Archetype;
use crate::borrow::BorrowCounter;
use crate::cache::CacheEntry;
use crate::component::ComponentId;
use crate::entities::Entity;
use crate::world::{Registration, World};

verus! {

/// A condition on the component types of an archetype, given as a pair of
/// bitmasks: the bits an archetype must have and the bits it must not have.
pub trait Filter {
    /// Tells whether the bitmasks can be asked for: whether the component
    /// types that have to be registered are.
    spec fn ready(&self, registry: Map<ComponentId, Registration>) -> bool;

    /// The bits an archetype must have.
    spec fn required(&self, registry: Map<ComponentId, Registration>) -> u64;

    /// The bits an archetype must not have.
    spec fn excluded(&self, registry: Map<ComponentId, Registration>) -> u64;

    /// The pair of required and excluded bits.
    fn bitmask(&self, world: &World) -> (masks: (u64, u64))
        requires
            world.wf(),
            self.ready(world.registry()),
        ensures
            masks.0 == self.required(world.registry()),
            masks.1 == self.excluded(world.registry()),
    ;
}

/// What a query fetches from a row, and the borrows of columns it needs for
/// that.
pub trait QueryItem: Filter {
    /// What is fetched from one row.
    type Item;

    /// Tells whether an archetype with columns for the given component types
    /// has every column that is fetched.
    spec fn fetchable(&self, columns: Set<ComponentId>) -> bool;

    /// The borrows of an archetype after the borrows of the query were
    /// taken, or `None` if one of them conflicts with what is borrowed.
    spec fn acquired(&self, borrows: Map<ComponentId, BorrowCounter>) -> Option<
        Map<ComponentId, BorrowCounter>,
    >;

    /// The borrows of an archetype after the borrows of the query were given
    /// back.
    spec fn released(&self, borrows: Map<ComponentId, BorrowCounter>) -> Map<
        ComponentId,
        BorrowCounter,
    >;

    /// Tells whether `item` is what the query fetches from the row.
    spec fn fetched(&self, archetype: &Archetype, row: int, item: Self::Item) -> bool;

    /// Tells whether the query holds the exclusive borrow of the column of
    /// the given type while it is in an archetype.
    spec fn grants_write(&self, id: ComponentId) -> bool;

    /// Giving the borrows back undoes taking them.
    proof fn lemma_release(&self, borrows: Map<ComponentId, BorrowCounter>)
        requires
            self.acquired(borrows).is_some(),
        ensures
            self.released(self.acquired(borrows).unwrap()) == borrows,
    ;

    /// An archetype of the world that has the required bits has the columns
    /// that are fetched.
    proof fn lemma_fetchable(&self, world: &World, archetype: &Archetype)
        requires
            world.registry_wf(),
            world.archetype_wf(*archetype),
            self.ready(world.registry()),
            (archetype.mask() & self.required(world.registry())) == self.required(
                world.registry(),
            ),
        ensures
            self.fetchable(archetype.table().dom()),
    ;

    /// Takes the borrows of the query on the columns of the archetype. If
    /// one of them cannot be had, none is taken.
    fn borrow(&self, archetype: &mut Archetype) -> (ok: bool)
        requires
            old(archetype).wf(),
        ensures
            final(archetype).wf(),
            final(archetype).same_rows(old(archetype)),
            final(archetype).ids() == old(archetype).ids(),
            ok == self.acquired(old(archetype).borrows()).is_some(),
            final(archetype).borrows() == if ok {
                self.acquired(old(archetype).borrows()).unwrap()
            } else {
                old(archetype).borrows()
            },
    ;

    /// Gives back the borrows of the query on the columns of the archetype.
    fn release(&self, archetype: &mut Archetype)
        requires
            old(archetype).wf(),
        ensures
            final(archetype).wf(),
            final(archetype).same_rows(old(archetype)),
            final(archetype).ids() == old(archetype).ids(),
            final(archetype).borrows() == self.released(old(archetype).borrows()),
    ;

    /// Fetches from a row.
    fn fetch(&self, archetype: &Archetype, row: usize) -> (item: Self::Item)
        requires
            archetype.wf(),
            archetype.balanced(),
            self.fetchable(archetype.table().dom()),
            row < archetype.rows().len(),
        ensures
            self.fetched(archetype, row as int, item),
    ;

    /// Tells whether the query holds the exclusive borrow of the column of
    /// the given type while it is in an archetype.
    fn can_write(&self, id: ComponentId) -> (r: bool)
        ensures
            r == self.grants_write(id),
    ;

    /// Tells whether the archetype has every column that is fetched.
    fn can_fetch(&self, archetype: &Archetype) -> (r: bool)
        requires
            archetype.wf(),
        ensures
            r == self.fetchable(archetype.table().dom()),
    ;
}

/// The filter that every archetype passes.
impl Filter for () {
    open spec fn ready(&self, registry: Map<ComponentId, Registration>) -> bool {
        true
    }

    open spec fn required(&self, registry: Map<ComponentId, Registration>) -> u64 {
        0
    }

    open spec fn excluded(&self, registry: Map<ComponentId, Registration>) -> u64 {
        0
    }

    fn bitmask(&self, world: &World) -> (masks: (u64, u64)) {
        (0, 0)
    }
}

/// Passes the archetypes that have a column of the given type. While the
/// type is not registered, every archetype passes.
#[derive(Clone, Copy, Debug)]
pub struct With {
    pub id: ComponentId,
}

/// Passes the archetypes that have no column of the given type.
#[derive(Clone, Copy, Debug)]
pub struct Without {
    pub id: ComponentId,
}

/// The bit of a component type, or no bit if the type is not registered.
pub open spec fn bit_or_zero(registry: Map<ComponentId, Registration>, id: ComponentId) -> u64 {
    if registry.contains_key(id) {
        crate::bits::bit(registry[id].position)
    } else {
        0
    }
}

impl With {
    /// The filter for the given component type.
    pub fn new(id: ComponentId) -> (r: Self)
        ensures
            r.id == id,
    {
        With { id }
    }
}

impl Without {
    /// The filter for the given component type.
    pub fn new(id: ComponentId) -> (r: Self)
        ensures
            r.id == id,
    {
        Without { id }
    }
}

impl Filter for With {
    open spec fn ready(&self, registry: Map<ComponentId, Registration>) -> bool {
        true
    }

    open spec fn required(&self, registry: Map<ComponentId, Registration>) -> u64 {
        bit_or_zero(registry, self.id)
    }

    open spec fn excluded(&self, registry: Map<ComponentId, Registration>) -> u64 {
        0
    }

    fn bitmask(&self, world: &World) -> (masks: (u64, u64)) {
        match world.bit_of(self.id) {
            Some(bit) => (bit, 0),
            None => (0, 0),
        }
    }
}

impl Filter for Without {
    open spec fn ready(&self, registry: Map<ComponentId, Registration>) -> bool {
        true
    }

    open spec fn required(&self, registry: Map<ComponentId, Registration>) -> u64 {
        0
    }

    open spec fn excluded(&self, registry: Map<ComponentId, Registration>) -> u64 {
        bit_or_zero(registry, self.id)
    }

    fn bitmask(&self, world: &World) -> (masks: (u64, u64)) {
        match world.bit_of(self.id) {
            Some(bit) => (0, bit),
            None => (0, 0),
        }
    }
}

/// Fetches the component of the given type under a shared borrow of its
/// column.
#[derive(Clone, Copy, Debug)]
pub struct Read {
    pub id: ComponentId,
}

/// Fetches the component of the given type under the exclusive borrow of its
/// column, which allows writing it.
#[derive(Clone, Copy, Debug)]
pub struct Write {
    pub id: ComponentId,
}

/// Fetches the entity of the row. It needs no column and borrows nothing.
#[derive(Clone, Copy, Debug)]
pub struct Handle;

impl Read {
    /// The fetch of the given component type.
    pub fn new(id: ComponentId) -> (r: Self)
        ensures
            r.id == id,
    {
        Read { id }
    }
}

impl Write {
    /// The fetch of the given component type.
    pub fn new(id: ComponentId) -> (r: Self)
        ensures
            r.id == id,
    {
        Write { id }
    }
}

impl Filter for Read {
    open spec fn ready(&self, registry: Map<ComponentId, Registration>) -> bool {
        registry.contains_key(self.id)
    }

    open spec fn required(&self, registry: Map<ComponentId, Registration>) -> u64 {
        bit_or_zero(registry, self.id)
    }

    open spec fn excluded(&self, registry: Map<ComponentId, Registration>) -> u64 {
        0
    }

    fn bitmask(&self, world: &World) -> (masks: (u64, u64)) {
        match world.bit_of(self.id) {
            Some(bit) => (bit, 0),
            None => (0, 0),
        }
    }
}

impl Filter for Write {
    open spec fn ready(&self, registry: Map<ComponentId, Registration>) -> bool {
        registry.contains_key(self.id)
    }

    open spec fn required(&self, registry: Map<ComponentId, Registration>) -> u64 {
        bit_or_zero(registry, self.id)
    }

    open spec fn excluded(&self, registry: Map<ComponentId, Registration>) -> u64 {
        0
    }

    fn bitmask(&self, world: &World) -> (masks: (u64, u64)) {
        match world.bit_of(self.id) {
            Some(bit) => (bit, 0),
            None => (0, 0),
        }
    }
}

impl Filter for Handle {
    open spec fn ready(&self, registry: Map<ComponentId, Registration>) -> bool {
        true
    }

    open spec fn required(&self, registry: Map<ComponentId, Registration>) -> u64 {
        0
    }

    open spec fn excluded(&self, registry: Map<ComponentId, Registration>) -> u64 {
        0
    }

    fn bitmask(&self, world: &World) -> (masks: (u64, u64)) {
        (0, 0)
    }
}

/// An archetype of the world that has the bit of a registered type has a
/// column for it.
proof fn lemma_column_present(world: &World, archetype: &Archetype, id: ComponentId)
    requires
        world.registry_wf(),
        world.archetype_wf(*archetype),
        world.registry().contains_key(id),
        (archetype.mask() & bit_or_zero(world.registry(), id)) == bit_or_zero(
            world.registry(),
            id,
        ),
    ensures
        archetype.has(id),
{
    let position = world.registry()[id].position;
    crate::bits::lemma_single(archetype.mask(), position);
    crate::bits::lemma_bit(position, position);
}

/// Copies the bytes of a value.
fn copy_bytes(bytes: &[u8]) -> (copy: Vec<u8>)
    ensures
        copy@ == bytes@,
{
    vstd::slice::slice_to_vec(bytes)
}

impl QueryItem for Read {
    type Item = Vec<u8>;

    open spec fn fetchable(&self, columns: Set<ComponentId>) -> bool {
        columns.contains(self.id)
    }

    open spec fn acquired(&self, borrows: Map<ComponentId, BorrowCounter>) -> Option<
        Map<ComponentId, BorrowCounter>,
    > {
        if borrows.contains_key(self.id) && borrows[self.id].can_share() {
            Some(borrows.insert(self.id, borrows[self.id].shared_taken()))
        } else {
            None
        }
    }

    open spec fn released(&self, borrows: Map<ComponentId, BorrowCounter>) -> Map<
        ComponentId,
        BorrowCounter,
    > {
        if borrows.contains_key(self.id) {
            borrows.insert(self.id, borrows[self.id].shared_released())
        } else {
            borrows
        }
    }

    open spec fn fetched(&self, archetype: &Archetype, row: int, item: Vec<u8>) -> bool {
        item@ == archetype.table()[self.id][row]
    }

    open spec fn grants_write(&self, id: ComponentId) -> bool {
        false
    }

    proof fn lemma_release(&self, borrows: Map<ComponentId, BorrowCounter>) {
        borrows[self.id].lemma_steps();
        assert(self.released(self.acquired(borrows).unwrap()) =~= borrows);
    }

    proof fn lemma_fetchable(&self, world: &World, archetype: &Archetype) {
        lemma_column_present(world, archetype, self.id);
    }

    fn borrow(&self, archetype: &mut Archetype) -> (ok: bool) {
        archetype.borrow(self.id)
    }

    fn release(&self, archetype: &mut Archetype) {
        archetype.release(self.id);
    }

    fn fetch(&self, archetype: &Archetype, row: usize) -> (item: Vec<u8>) {
        match archetype.get_bytes(self.id, row) {
            Some(bytes) => copy_bytes(bytes),
            None => Vec::new(),
        }
    }

    fn can_write(&self, id: ComponentId) -> (r: bool) {
        false
    }

    fn can_fetch(&self, archetype: &Archetype) -> (r: bool) {
        archetype.column(self.id).is_some()
    }
}

impl QueryItem for Write {
    type Item = Vec<u8>;

    open spec fn fetchable(&self, columns: Set<ComponentId>) -> bool {
        columns.contains(self.id)
    }

    open spec fn acquired(&self, borrows: Map<ComponentId, BorrowCounter>) -> Option<
        Map<ComponentId, BorrowCounter>,
    > {
        if borrows.contains_key(self.id) && borrows[self.id].is_free() {
            Some(borrows.insert(self.id, borrows[self.id].exclusive_taken()))
        } else {
            None
        }
    }

    open spec fn released(&self, borrows: Map<ComponentId, BorrowCounter>) -> Map<
        ComponentId,
        BorrowCounter,
    > {
        if borrows.contains_key(self.id) {
            borrows.insert(self.id, borrows[self.id].exclusive_released())
        } else {
            borrows
        }
    }

    open spec fn fetched(&self, archetype: &Archetype, row: int, item: Vec<u8>) -> bool {
        item@ == archetype.table()[self.id][row]
    }

    open spec fn grants_write(&self, id: ComponentId) -> bool {
        id == self.id
    }

    proof fn lemma_release(&self, borrows: Map<ComponentId, BorrowCounter>) {
        borrows[self.id].lemma_steps();
        assert(self.released(self.acquired(borrows).unwrap()) =~= borrows);
    }

    proof fn lemma_fetchable(&self, world: &World, archetype: &Archetype) {
        lemma_column_present(world, archetype, self.id);
    }

    fn borrow(&self, archetype: &mut Archetype) -> (ok: bool) {
        archetype.borrow_mut(self.id)
    }

    fn release(&self, archetype: &mut Archetype) {
        archetype.release_mut(self.id);
    }

    fn fetch(&self, archetype: &Archetype, row: usize) -> (item: Vec<u8>) {
        match archetype.get_bytes(self.id, row) {
            Some(bytes) => copy_bytes(bytes),
            None => Vec::new(),
        }
    }

    fn can_write(&self, id: ComponentId) -> (r: bool) {
        id == self.id
    }

    fn can_fetch(&self, archetype: &Archetype) -> (r: bool) {
        archetype.column(self.id).is_some()
    }
}

impl QueryItem for Handle {
    type Item = Entity;

    open spec fn fetchable(&self, columns: Set<ComponentId>) -> bool {
        true
    }

    open spec fn acquired(&self, borrows: Map<ComponentId, BorrowCounter>) -> Option<
        Map<ComponentId, BorrowCounter>,
    > {
        Some(borrows)
    }

    open spec fn released(&self, borrows: Map<ComponentId, BorrowCounter>) -> Map<
        ComponentId,
        BorrowCounter,
    > {
        borrows
    }

    open spec fn fetched(&self, archetype: &Archetype, row: int, item: Entity) -> bool {
        item == archetype.rows()[row]
    }

    open spec fn grants_write(&self, id: ComponentId) -> bool {
        false
    }

    proof fn lemma_release(&self, borrows: Map<ComponentId, BorrowCounter>) {
    }

    proof fn lemma_fetchable(&self, world: &World, archetype: &Archetype) {
    }

    fn borrow(&self, archetype: &mut Archetype) -> (ok: bool) {
        true
    }

    fn release(&self, archetype: &mut Archetype) {
    }

    fn fetch(&self, archetype: &Archetype, row: usize) -> (item: Entity) {
        archetype.entities()[row]
    }

    fn can_write(&self, id: ComponentId) -> (r: bool) {
        false
    }

    fn can_fetch(&self, archetype: &Archetype) -> (r: bool) {
        true
    }
}

/// A pair asks for the bits that either part asks for. Pairs nest, so any
/// number of parts can be combined.
impl<A: Filter, B: Filter> Filter for (A, B) {
    open spec fn ready(&self, registry: Map<ComponentId, Registration>) -> bool {
        self.0.ready(registry) && self.1.ready(registry)
    }

    open spec fn required(&self, registry: Map<ComponentId, Registration>) -> u64 {
        self.0.required(registry) | self.1.required(registry)
    }

    open spec fn excluded(&self, registry: Map<ComponentId, Registration>) -> u64 {
        self.0.excluded(registry) | self.1.excluded(registry)
    }

    fn bitmask(&self, world: &World) -> (masks: (u64, u64)) {
        let first = self.0.bitmask(world);
        let second = self.1.bitmask(world);
        (first.0 | second.0, first.1 | second.1)
    }
}

/// A pair fetches what both parts fetch and takes the borrows of the first
/// part, then those of the second.
impl<A: QueryItem, B: QueryItem> QueryItem for (A, B) {
    type Item = (A::Item, B::Item);

    open spec fn fetchable(&self, columns: Set<ComponentId>) -> bool {
        self.0.fetchable(columns) && self.1.fetchable(columns)
    }

    open spec fn acquired(&self, borrows: Map<ComponentId, BorrowCounter>) -> Option<
        Map<ComponentId, BorrowCounter>,
    > {
        match self.0.acquired(borrows) {
            Some(first) => self.1.acquired(first),
            None => None,
        }
    }

    open spec fn released(&self, borrows: Map<ComponentId, BorrowCounter>) -> Map<
        ComponentId,
        BorrowCounter,
    > {
        self.0.released(self.1.released(borrows))
    }

    open spec fn fetched(&self, archetype: &Archetype, row: int, item: (A::Item, B::Item)) -> bool {
        self.0.fetched(archetype, row, item.0) && self.1.fetched(archetype, row, item.1)
    }

    open spec fn grants_write(&self, id: ComponentId) -> bool {
        self.0.grants_write(id) || self.1.grants_write(id)
    }

    proof fn lemma_release(&self, borrows: Map<ComponentId, BorrowCounter>) {
        let first = self.0.acquired(borrows).unwrap();
        self.1.lemma_release(first);
        self.0.lemma_release(borrows);
    }

    proof fn lemma_fetchable(&self, world: &World, archetype: &Archetype) {
        crate::bits::lemma_has_union(
            archetype.mask(),
            self.0.required(world.registry()),
            self.1.required(world.registry()),
        );
        self.0.lemma_fetchable(world, archetype);
        self.1.lemma_fetchable(world, archetype);
    }

    fn borrow(&self, archetype: &mut Archetype) -> (ok: bool) {
        if !self.0.borrow(archetype) {
            return false;
        }
        if !self.1.borrow(archetype) {
            proof {
                self.0.lemma_release(old(archetype).borrows());
            }
            self.0.release(archetype);
            return false;
        }
        true
    }

    fn release(&self, archetype: &mut Archetype) {
        self.1.release(archetype);
        self.0.release(archetype);
    }

    fn fetch(&self, archetype: &Archetype, row: usize) -> (item: (A::Item, B::Item)) {
        (self.0.fetch(archetype, row), self.1.fetch(archetype, row))
    }

    fn can_write(&self, id: ComponentId) -> (r: bool) {
        self.0.can_write(id) || self.1.can_write(id)
    }

    fn can_fetch(&self, archetype: &Archetype) -> (r: bool) {
        self.0.can_fetch(archetype) && self.1.can_fetch(archetype)
    }
}

/// The rows that a walk still has to visit, as pairs of archetype index and
/// row: the rows from `row` on of the archetype at position `cursor` of the
/// match list, then all rows of the archetypes after it.
pub open spec fn rows_from(counts: Seq<nat>, matching: Seq<usize>, cursor: int, row: int) -> Seq<
    (usize, usize),
>
    decreases matching.len() - cursor, counts[matching[cursor] as int] - row,
{
    if cursor < 0 || cursor >= matching.len() {
        Seq::empty()
    } else if 0 <= row < counts[matching[cursor] as int] {
        seq![(matching[cursor], row as usize)] + rows_from(counts, matching, cursor, row + 1)
    } else {
        rows_from(counts, matching, cursor + 1, 0)
    }
}

/// All rows of an archetype, as pairs of archetype index and row.
pub open spec fn rows_of(index: usize, count: nat) -> Seq<(usize, usize)> {
    Seq::new(count, |row: int| (index, row as usize))
}

/// The rows from `row` on of the archetype at a position of the match list
/// come before the rows of the archetypes after it.
pub proof fn lemma_rows_of(counts: Seq<nat>, matching: Seq<usize>, cursor: int, row: int)
    requires
        0 <= cursor < matching.len(),
        0 <= row <= counts[matching[cursor] as int],
        counts[matching[cursor] as int] <= usize::MAX,
    ensures
        rows_from(counts, matching, cursor, row) == rows_of(
            matching[cursor],
            counts[matching[cursor] as int],
        ).skip(row) + rows_from(counts, matching, cursor + 1, 0),
    decreases counts[matching[cursor] as int] - row,
{
    let count = counts[matching[cursor] as int];
    let all = rows_of(matching[cursor], count);
    let later = rows_from(counts, matching, cursor + 1, 0);
    if row < count {
        lemma_rows_of(counts, matching, cursor, row + 1);
        assert(all.skip(row) =~= seq![(matching[cursor], row as usize)] + all.skip(row + 1));
        assert(rows_from(counts, matching, cursor, row) =~= all.skip(row) + later);
    } else {
        assert(all.skip(row) =~= Seq::empty());
        assert(rows_from(counts, matching, cursor, row) =~= all.skip(row) + later);
    }
}

/// A walk could not enter an archetype: a borrow that the query needs there
/// conflicts with one that is outstanding.
#[derive(Clone, Copy, Debug, PartialEq, Eq, Structural)]
pub struct BorrowConflict {
    pub archetype: usize,
}

/// A walk over the rows of the archetypes that match a query.
///
/// The walk visits the matched archetypes in ascending order of their index
/// and the rows of each in ascending order. It holds the borrows of the
/// query on the archetype it is in, from the first row fetched there until it
/// moves on or is finished.
pub struct QueryIter<Q: QueryItem> {
    items: Q,
    matching: Vec<usize>,
    cursor: usize,
    row: usize,
    current_len: usize,
    entered: bool,
}

impl<Q: QueryItem> QueryIter<Q> {
    /// What the walk fetches.
    pub closed spec fn items(&self) -> Q {
        self.items
    }

    /// The indices of the archetypes that the walk visits.
    pub closed spec fn matching(&self) -> Seq<usize> {
        self.matching@
    }

    /// The position in the match list of the archetype that the walk is in,
    /// or comes to next.
    pub closed spec fn cursor(&self) -> int {
        self.cursor as int
    }

    /// The number of rows fetched from the archetype that the walk is in.
    pub closed spec fn row(&self) -> int {
        self.row as int
    }

    /// Tells whether the walk is in an archetype, holding its borrows there.
    pub closed spec fn entered(&self) -> bool {
        self.entered
    }

    /// The walk has not begun: it stands before the first row of the first
    /// archetype of its match list and holds no borrow.
    pub open spec fn fresh(&self) -> bool {
        self.cursor() == 0 && self.row() == 0 && !self.entered()
    }

    /// The archetype on which the walk holds its borrows, if any.
    pub open spec fn holding(&self) -> Option<usize> {
        if self.entered() {
            Some(self.matching()[self.cursor()])
        } else {
            None
        }
    }

    /// The row fetched last, if the walk is still in its archetype.
    pub open spec fn current(&self) -> Option<(usize, usize)> {
        if self.entered() && self.row() > 0 {
            Some((self.matching()[self.cursor()], (self.row() - 1) as usize))
        } else {
            None
        }
    }

    /// The rows that the walk still has to visit.
    pub open spec fn remaining(&self, world: &World) -> Seq<(usize, usize)> {
        rows_from(world.counts(), self.matching(), self.cursor(), self.row())
    }

    /// The rows that the walk has to visit once it has left the archetype it
    /// is in.
    pub open spec fn rows_after(&self, world: &World) -> Seq<(usize, usize)> {
        rows_from(
            world.counts(),
            self.matching(),
            if self.entered() {
                self.cursor() + 1
            } else {
                self.cursor()
            },
            0,
        )
    }

    /// The walk has no row left and stands at the end of its match list.
    pub open spec fn finished(&self) -> bool {
        !self.entered() && self.cursor() >= self.matching().len()
    }

    /// The walk belongs to the world in its present state: its archetypes
    /// exist, have the columns that are fetched, and are listed in ascending
    /// order, and the archetype that the walk is in has the number of rows
    /// that it had when the walk entered it.
    pub closed spec fn valid_for(&self, world: &World) -> bool {
        &&& self.cursor <= self.matching@.len()
        &&& forall|k: int|
            0 <= k < self.matching@.len() ==> (#[trigger] self.matching@[k])
                < world.archetypes().len() && self.items.fetchable(
                world.archetypes()[self.matching@[k] as int].table().dom(),
            )
        &&& forall|i: int, j: int|
            0 <= i < j < self.matching@.len() ==> self.matching@[i] < self.matching@[j]
        &&& self.entered ==> self.cursor < self.matching@.len() && self.current_len
            == world.archetypes()[self.matching@[self.cursor as int] as int].rows().len()
            && self.row <= self.current_len && self.current_len > 0
        &&& !self.entered ==> self.row == 0
    }

    /// The walk cannot go on: its next row is in an archetype that it has
    /// yet to enter, and there a borrow of the query conflicts with one that
    /// is outstanding.
    pub open spec fn blocked(&self, world: &World) -> bool {
        let rest = self.remaining(world);
        &&& rest.len() > 0
        &&& self.holding() != Some(rest[0].0)
        &&& self.items().acquired(world.archetypes()[rest[0].0 as int].borrows()).is_none()
    }

    /// The borrows on the columns of archetype `index` after a step of the
    /// walk that held its borrows on `held` before and on `holds` after.
    pub open spec fn borrows_after(
        items: Q,
        before: Map<ComponentId, BorrowCounter>,
        index: int,
        held: Option<usize>,
        holds: Option<usize>,
    ) -> Map<ComponentId, BorrowCounter> {
        if held == holds {
            before
        } else if held == Some(index as usize) {
            items.released(before)
        } else if holds == Some(index as usize) {
            items.acquired(before).unwrap()
        } else {
            before
        }
    }

    /// A walk over the archetypes with the given indices, before its first
    /// row.
    pub fn new(items: Q, matching: Vec<usize>) -> (r: Self)
        ensures
            r.items() == items,
            r.matching() == matching@,
            r.fresh(),
    {
        QueryIter { items, matching, cursor: 0, row: 0, current_len: 0, entered: false }
    }

    /// A fresh walk over a match list of the world is valid for it.
    pub proof fn lemma_fresh(&self, world: &World, required: u64, excluded: u64)
        requires
            world.wf(),
            self.items().ready(world.registry()),
            self.matching() == crate::cache::matching(
                world.masks(),
                required,
                excluded,
                world.archetypes().len() as int,
            ),
            (required & self.items().required(world.registry())) == self.items().required(
                world.registry(),
            ),
            self.fresh(),
        ensures
            self.valid_for(world),
    {
        let n = world.archetypes().len() as int;
        crate::cache::lemma_matching(world.masks(), required, excluded, n);
        assert forall|k: int| 0 <= k < self.matching@.len() implies (#[trigger] self.matching@[k])
            < world.archetypes().len() && self.items.fetchable(
            world.archetypes()[self.matching@[k] as int].table().dom(),
        ) by {
            let a = self.matching@[k];
            assert(self.matching().contains(a));
            let archetype = world.archetypes()[a as int];
            assert(world.archetype_wf(archetype));
            assert(world.masks()[a as int] == archetype.mask());
            crate::bits::lemma_has_all(archetype.mask(), required, self.items().required(world.registry()));
            self.items.lemma_fetchable(world, &archetype);
        }
    }

    /// Fetches the next row, or tells that none is left. See
    /// [`try_next`](QueryIter::try_next) for how the walk moves between
    /// archetypes; here the borrows it needs must be there to be had.
    pub fn next(&mut self, world: &mut World) -> (r: Option<Q::Item>)
        requires
            old(world).wf(),
            old(self).valid_for(old(world)),
            !old(self).blocked(old(world)),
        ensures
            final(world).wf(),
            final(world).same_store(old(world)),
            final(self).valid_for(final(world)),
            final(self).items() == old(self).items(),
            final(self).matching() == old(self).matching(),
            forall|i: int|
                0 <= i < final(world).archetypes().len()
                    ==> (#[trigger] final(world).archetypes()[i]).borrows() == Self::borrows_after(
                    old(self).items(),
                    old(world).archetypes()[i].borrows(),
                    i,
                    old(self).holding(),
                    final(self).holding(),
                ),
            match r {
                Some(item) => {
                    let rest = old(self).remaining(old(world));
                    &&& rest.len() > 0
                    &&& final(self).remaining(final(world)) == rest.drop_first()
                    &&& final(self).current() == Some(rest[0])
                    &&& rest[0].0 < final(world).archetypes().len()
                    &&& old(self).items().fetched(
                        &final(world).archetypes()[rest[0].0 as int],
                        rest[0].1 as int,
                        item,
                    )
                },
                None => {
                    &&& old(self).remaining(old(world)).len() == 0
                    &&& final(self).finished()
                },
            },
    {
        match self.try_next(world) {
            Ok(item) => item,
            Err(_) => None,
        }
    }

    /// Moves to the next matched archetype that has rows and delivers it as
    /// a whole: the walk leaves the archetype it is in, whatever rows are
    /// left there, enters the next one, and counts all its rows as visited.
    /// The index of the archetype is returned; its columns can be read as
    /// slices while the walk holds its borrows there.
    pub fn try_next_chunk(&mut self, world: &mut World) -> (r: Result<Option<usize>,
        BorrowConflict>)
        requires
            old(world).wf(),
            old(self).valid_for(old(world)),
        ensures
            final(world).wf(),
            final(world).same_store(old(world)),
            final(self).valid_for(final(world)),
            final(self).items() == old(self).items(),
            final(self).matching() == old(self).matching(),
            forall|i: int|
                0 <= i < final(world).archetypes().len()
                    ==> (#[trigger] final(world).archetypes()[i]).borrows() == Self::borrows_after(
                    old(self).items(),
                    old(world).archetypes()[i].borrows(),
                    i,
                    old(self).holding(),
                    final(self).holding(),
                ),
            match r {
                Ok(Some(index)) => {
                    let rest = old(self).rows_after(old(world));
                    &&& rest.len() > 0
                    &&& index == rest[0].0
                    &&& index < final(world).archetypes().len()
                    &&& final(self).holding() == Some(index)
                    &&& rest == rows_of(
                        index,
                        final(world).archetypes()[index as int].rows().len(),
                    ) + final(self).remaining(final(world))
                    &&& old(self).items().fetchable(
                        final(world).archetypes()[index as int].table().dom(),
                    )
                },
                Ok(None) => {
                    &&& old(self).rows_after(old(world)).len() == 0
                    &&& final(self).finished()
                },
                Err(conflict) => {
                    let rest = old(self).rows_after(old(world));
                    &&& rest.len() > 0
                    &&& conflict.archetype == rest[0].0
                    &&& conflict.archetype < old(world).archetypes().len()
                    &&& old(self).items().acquired(
                        old(world).archetypes()[conflict.archetype as int].borrows(),
                    ).is_none()
                    &&& final(self).remaining(final(world)) == rest
                    &&& !final(self).entered()
                },
            },
    {
        let ghost rest = self.rows_after(world);
        let ghost held = self.holding();
        let total: usize = self.matching.len();
        if self.entered {
            world.release(self.matching[self.cursor], &self.items);
            self.cursor = self.cursor + 1;
            self.entered = false;
            self.row = 0;
            self.current_len = 0;
            proof {
                world.lemma_same_store(old(world));
                assert forall|k: int| 0 <= k < self.matching@.len() implies (
                #[trigger] self.matching@[k]) < world.archetypes().len() && self.items.fetchable(
                    world.archetypes()[self.matching@[k] as int].table().dom(),
                ) by {
                    let a = self.matching@[k] as int;
                    assert(world.archetypes()[a].same_rows(&old(world).archetypes()[a]));
                }
            }
        }
        loop
            invariant
                world.wf(),
                world.same_store(old(world)),
                self.valid_for(world),
                !self.entered,
                self.items == old(self).items,
                self.matching == old(self).matching,
                old(world).wf(),
                old(self).valid_for(old(world)),
                rest == old(self).rows_after(old(world)),
                held == old(self).holding(),
                self.remaining(world) == rest,
                held is Some ==> self.cursor > old(self).cursor,
                forall|i: int|
                    0 <= i < world.archetypes().len()
                        ==> (#[trigger] world.archetypes()[i]).borrows()
                        == Self::borrows_after(
                        self.items,
                        old(world).archetypes()[i].borrows(),
                        i,
                        held,
                        None,
                    ),
            decreases self.matching@.len() - self.cursor,
        {
            let ghost counts = world.counts();
            proof {
                world.lemma_same_store(old(world));
            }
            if self.cursor >= self.matching.len() {
                return Ok(None);
            }
            let index = self.matching[self.cursor];
            let len = world.archetype(index).count();
            proof {
                assert(world.archetype_wf(world.archetypes()[index as int]));
                world.archetypes()[index as int].lemma_wf();
                Self::lemma_rows_step(counts, self.matching@, self.cursor as int, 0);
                assert(counts[index as int] == len);
            }
            if len > 0 {
                let ghost before = *world;
                proof {
                    if held is Some {
                        assert(old(self).matching@[old(self).cursor as int] != index);
                    }
                    assert(world.archetypes()[index as int].borrows()
                        == old(world).archetypes()[index as int].borrows());
                }
                let ok = world.acquire(index, &self.items);
                proof {
                    world.lemma_same_store(&before);
                    assert forall|i: int| 0 <= i < world.archetypes().len() implies (
                    #[trigger] world.archetypes()[i]).same_rows(&old(world).archetypes()[i]) by {
                        assert(world.archetypes()[i].same_rows(&before.archetypes()[i]));
                        assert(before.archetypes()[i].same_rows(&old(world).archetypes()[i]));
                    }
                    assert forall|k: int| 0 <= k < self.matching@.len() implies (
                    #[trigger] self.matching@[k]) < world.archetypes().len()
                        && self.items.fetchable(
                        world.archetypes()[self.matching@[k] as int].table().dom(),
                    ) by {
                        let a = self.matching@[k] as int;
                        assert(world.archetypes()[a].same_rows(&before.archetypes()[a]));
                    }
                }
                if !ok {
                    return Err(BorrowConflict { archetype: index });
                }
                self.entered = true;
                self.current_len = len;
                self.row = len;
                proof {
                    lemma_rows_of(counts, self.matching@, self.cursor as int, 0);
                    Self::lemma_rows_step(counts, self.matching@, self.cursor as int, len as int);
                    assert(rows_of(index, len as nat).skip(0) =~= rows_of(
                        index,
                        len as nat,
                    ));
                    assert(rest[0] == (index, 0usize));
                }
                return Ok(Some(index));
            } else {
                self.cursor = self.cursor + 1;
            }
        }
    }

    /// The row fetched last, as archetype index and row, if the walk is
    /// still in its archetype.
    pub fn position(&self) -> (r: Option<(usize, usize)>)
        ensures
            self.cursor() < self.matching().len() ==> r == self.current(),
            self.cursor() >= self.matching().len() ==> r is None,
    {
        if self.entered && self.row > 0 && self.cursor < self.matching.len() {
            Some((self.matching[self.cursor], self.row - 1))
        } else {
            None
        }
    }

    /// Tells whether the walk belongs to the world in its present state.
    pub fn is_valid_for(&self, world: &World) -> (r: bool)
        requires
            world.wf(),
        ensures
            r == self.valid_for(world),
    {
        if self.cursor > self.matching.len() {
            return false;
        }
        if !self.entered && self.row != 0 {
            return false;
        }
        let mut k: usize = 0;
        while k < self.matching.len()
            invariant
                0 <= k <= self.matching@.len(),
                world.wf(),
                forall|j: int|
                    0 <= j < k ==> (#[trigger] self.matching@[j]) < world.archetypes().len()
                        && self.items.fetchable(
                        world.archetypes()[self.matching@[j] as int].table().dom(),
                    ),
                forall|i: int, j: int| 0 <= i < j < k ==> self.matching@[i] < self.matching@[j],
            decreases self.matching@.len() - k,
        {
            let index = self.matching[k];
            if index >= world.archetype_count() {
                return false;
            }
            if k > 0 && self.matching[k - 1] >= index {
                assert(!(self.matching@[k - 1] < self.matching@[k as int]));
                return false;
            }
            proof {
                assert(world.archetype_wf(world.archetypes()[index as int]));
            }
            if !self.items.can_fetch(world.archetype(index)) {
                return false;
            }
            proof {
                assert forall|i: int, j: int| 0 <= i < j < k + 1 implies self.matching@[i]
                    < self.matching@[j] by {
                    if j == k && i < k - 1 {
                        assert(self.matching@[i] < self.matching@[k - 1]);
                    }
                }
            }
            k = k + 1;
        }
        if self.entered {
            if self.cursor >= self.matching.len() {
                return false;
            }
            let archetype = world.archetype(self.matching[self.cursor]);
            proof {
                assert(world.archetype_wf(*archetype));
                archetype.lemma_wf();
            }
            return self.current_len == archetype.count() && self.row <= self.current_len
                && self.current_len > 0;
        }
        true
    }

    /// Overwrites, in the row fetched last, the component of the given type.
    /// Tells whether it did: nothing is written unless the walk is at a row,
    /// the query holds the exclusive borrow of the column, and the value has
    /// the size of the type.
    pub fn write(&self, world: &mut World, id: ComponentId, bytes: &[u8]) -> (ok: bool)
        requires
            old(world).wf(),
            self.valid_for(old(world)),
        ensures
            final(world).wf(),
            final(world).same_shape(old(world)),
            self.valid_for(final(world)),
            self.remaining(final(world)) == self.remaining(old(world)),
            ok == (self.current() is Some && self.items().grants_write(id)
                && old(world).archetypes()[self.current().unwrap().0 as int].table().contains_key(
                id) && bytes@.len()
                == old(world).info(id).size),
            !ok ==> *final(world) == *old(world),
            ok ==> final(world).inserted(
                old(world),
                old(world).archetypes()[self.current().unwrap().0 as int].rows()[self.current(
                    ).unwrap().1 as int],
                id,
                bytes@,
            ),
    {
        if !self.entered || self.row == 0 {
            return false;
        }
        if !self.items.can_write(id) {
            return false;
        }
        let index = self.matching[self.cursor];
        proof {
            assert(world.archetype_wf(world.archetypes()[index as int]));
        }
        let entity = world.archetype(index).entities()[self.row - 1];
        proof {
            let archetype = world.archetypes()[index as int];
            assert(archetype.rows()[self.row - 1] == entity);
            assert(world.entity_table().alive(entity));
            assert(world.components(entity).contains_key(id) <==> archetype.table().contains_key(
                id,
            ));
        }
        let ok = world.set_component(entity, id, bytes);
        proof {
            assert(world.counts() =~= old(world).counts());
        }
        ok
    }

    /// Ends the walk: the borrows that it holds are given back.
    pub fn finish(self, world: &mut World)
        requires
            old(world).wf(),
            self.valid_for(old(world)),
        ensures
            final(world).wf(),
            final(world).same_store(old(world)),
            forall|i: int|
                0 <= i < final(world).archetypes().len()
                    ==> (#[trigger] final(world).archetypes()[i]).borrows() == Self::borrows_after(
                    self.items(),
                    old(world).archetypes()[i].borrows(),
                    i,
                    self.holding(),
                    None,
                ),
    {
        if self.entered {
            world.release(self.matching[self.cursor], &self.items);
        }
    }

    /// The first of the remaining rows, once it is clear where it is.
    proof fn lemma_rows_step(counts: Seq<nat>, matching: Seq<usize>, cursor: int, row: int)
        requires
            0 <= cursor < matching.len(),
            0 <= row,
        ensures
            row < counts[matching[cursor] as int] ==> rows_from(counts, matching, cursor, row)
                == seq![(matching[cursor], row as usize)] + rows_from(
                counts,
                matching,
                cursor,
                row + 1,
            ),
            row >= counts[matching[cursor] as int] ==> rows_from(counts, matching, cursor, row)
                == rows_from(counts, matching, cursor + 1, 0),
    {
    }

    /// Fetches the next row. The walk leaves the archetype it is in when no
    /// row is left there, gives its borrows back, and enters the next matched
    /// archetype that has rows, taking its borrows there. If they cannot be
    /// had, the walk stays outside and reports the conflict; it can be asked
    /// again later.
    pub fn try_next(&mut self, world: &mut World) -> (r: Result<Option<Q::Item>, BorrowConflict>)
        requires
            old(world).wf(),
            old(self).valid_for(old(world)),
        ensures
            final(world).wf(),
            final(world).same_store(old(world)),
            final(self).valid_for(final(world)),
            final(self).items() == old(self).items(),
            final(self).matching() == old(self).matching(),
            forall|i: int|
                0 <= i < final(world).archetypes().len()
                    ==> (#[trigger] final(world).archetypes()[i]).borrows() == Self::borrows_after(
                    old(self).items(),
                    old(world).archetypes()[i].borrows(),
                    i,
                    old(self).holding(),
                    final(self).holding(),
                ),
            r.is_err() == old(self).blocked(old(world)),
            match r {
                Ok(Some(item)) => {
                    let rest = old(self).remaining(old(world));
                    &&& rest.len() > 0
                    &&& final(self).remaining(final(world)) == rest.drop_first()
                    &&& final(self).current() == Some(rest[0])
                    &&& rest[0].0 < final(world).archetypes().len()
                    &&& old(self).items().fetched(
                        &final(world).archetypes()[rest[0].0 as int],
                        rest[0].1 as int,
                        item,
                    )
                },
                Ok(None) => {
                    &&& old(self).remaining(old(world)).len() == 0
                    &&& final(self).finished()
                },
                Err(conflict) => {
                    let rest = old(self).remaining(old(world));
                    &&& rest.len() > 0
                    &&& conflict.archetype == rest[0].0
                    &&& final(self).remaining(final(world)) == rest
                    &&& !final(self).entered()
                },
            },
    {
        let ghost rest = self.remaining(world);
        let ghost held = self.holding();
        loop
            invariant
                world.wf(),
                world.same_store(old(world)),
                self.valid_for(world),
                self.items == old(self).items,
                self.matching == old(self).matching,
                old(world).wf(),
                old(self).valid_for(old(world)),
                rest == old(self).remaining(old(world)),
                held == old(self).holding(),
                self.remaining(world) == rest,
                self.cursor >= old(self).cursor,
                self.holding() == held || self.holding() is None,
                self.holding() is None && held is Some ==> self.cursor > old(self).cursor,
                forall|i: int|
                    0 <= i < world.archetypes().len()
                        ==> (#[trigger] world.archetypes()[i]).borrows()
                        == Self::borrows_after(
                        self.items,
                        old(world).archetypes()[i].borrows(),
                        i,
                        held,
                        self.holding(),
                    ),
            decreases (self.matching@.len() - self.cursor) * 2 + (if self.entered {
                0int
            } else {
                1int
            }),
        {
            let ghost counts = world.counts();
            let total: usize = self.matching.len();
            proof {
                world.lemma_same_store(old(world));
                if self.cursor < self.matching@.len() {
                    Self::lemma_rows_step(counts, self.matching@, self.cursor as int,
                        self.row as int);
                }
            }
            if self.entered && self.row < self.current_len {
                let index = self.matching[self.cursor];
                let archetype = world.archetype(index);
                proof {
                    assert(world.archetype_wf(*archetype));
                }
                let item = self.items.fetch(archetype, self.row);
                self.row = self.row + 1;
                proof {
                    assert(rest[0] == (index, (self.row - 1) as usize));
                    assert(self.remaining(world) =~= rest.drop_first());
                }
                return Ok(Some(item));
            }
            if self.entered {
                let ghost before = *world;
                world.release(self.matching[self.cursor], &self.items);
                self.cursor = self.cursor + 1;
                self.entered = false;
                self.row = 0;
                self.current_len = 0;
                proof {
                    world.lemma_same_store(&before);
                    assert(world.counts() == counts);
                    assert forall|i: int| 0 <= i < world.archetypes().len() implies (
                    #[trigger] world.archetypes()[i]).same_rows(&old(world).archetypes()[i]) by {
                        assert(world.archetypes()[i].same_rows(&before.archetypes()[i]));
                        assert(before.archetypes()[i].same_rows(&old(world).archetypes()[i]));
                    }
                    assert forall|k: int| 0 <= k < self.matching@.len() implies (
                    #[trigger] self.matching@[k]) < world.archetypes().len()
                        && self.items.fetchable(
                        world.archetypes()[self.matching@[k] as int].table().dom(),
                    ) by {
                        let a = self.matching@[k] as int;
                        assert(world.archetypes()[a].same_rows(&before.archetypes()[a]));
                    }
                }
            }
            if self.cursor >= self.matching.len() {
                return Ok(None);
            }
            let index = self.matching[self.cursor];
            let len = world.archetype(index).count();
            proof {
                assert(world.archetype_wf(world.archetypes()[index as int]));
                world.archetypes()[index as int].lemma_wf();
                Self::lemma_rows_step(counts, self.matching@, self.cursor as int, 0);
                assert(counts[index as int] == len);
            }
            if len > 0 {
                let ghost before = *world;
                proof {
                    // the archetype to enter is not the one that was held
                    if held is Some {
                        assert(old(self).matching@[old(self).cursor as int] != index);
                    }
                    assert(world.archetypes()[index as int].borrows()
                        == old(world).archetypes()[index as int].borrows());
                }
                if !world.acquire(index, &self.items) {
                    proof {
                        world.lemma_same_store(&before);
                        assert forall|i: int| 0 <= i < world.archetypes().len() implies (
                        #[trigger] world.archetypes()[i]).same_rows(
                            &old(world).archetypes()[i],
                        ) by {
                            assert(world.archetypes()[i].same_rows(&before.archetypes()[i]));
                            assert(before.archetypes()[i].same_rows(&old(world).archetypes()[i]));
                        }
                        assert forall|k: int| 0 <= k < self.matching@.len() implies (
                        #[trigger] self.matching@[k]) < world.archetypes().len()
                            && self.items.fetchable(
                            world.archetypes()[self.matching@[k] as int].table().dom(),
                        ) by {
                            let a = self.matching@[k] as int;
                            assert(world.archetypes()[a].same_rows(&before.archetypes()[a]));
                        }
                    }
                    return Err(BorrowConflict { archetype: index });
                }
                self.entered = true;
                self.current_len = len;
                self.row = 1;
                proof {
                    world.lemma_same_store(&before);
                    assert forall|i: int| 0 <= i < world.archetypes().len() implies (
                    #[trigger] world.archetypes()[i]).same_rows(&old(world).archetypes()[i]) by {
                        assert(world.archetypes()[i].same_rows(&before.archetypes()[i]));
                        assert(before.archetypes()[i].same_rows(&old(world).archetypes()[i]));
                    }
                    assert forall|k: int| 0 <= k < self.matching@.len() implies (
                    #[trigger] self.matching@[k]) < world.archetypes().len()
                        && self.items.fetchable(
                        world.archetypes()[self.matching@[k] as int].table().dom(),
                    ) by {
                        let a = self.matching@[k] as int;
                        assert(world.archetypes()[a].same_rows(&before.archetypes()[a]));
                    }
                    assert(world.archetype_wf(world.archetypes()[index as int]));
                    Self::lemma_rows_step(counts, self.matching@, self.cursor as int, 1);
                    assert(rest[0] == (index, 0usize));
                    assert(self.remaining(world) =~= rest.drop_first());
                }
                let item = self.items.fetch(world.archetype(index), 0);
                return Ok(Some(item));
            } else {
                self.cursor = self.cursor + 1;
            }
        }
    }
}

/// The bits that an archetype must have to match a query: those of what is
/// fetched and those of the filter.
pub open spec fn required_of<Q: QueryItem, F: Filter>(
    items: &Q,
    filter: &F,
    registry: Map<ComponentId, Registration>,
) -> u64 {
    items.required(registry) | filter.required(registry)
}

/// The bits that an archetype must not have to match a query.
pub open spec fn excluded_of<Q: QueryItem, F: Filter>(
    items: &Q,
    filter: &F,
    registry: Map<ComponentId, Registration>,
) -> u64 {
    items.excluded(registry) | filter.excluded(registry)
}

/// Copies a list of indices.
pub(crate) fn copy_indices(indices: &Vec<usize>) -> (copy: Vec<usize>)
    ensures
        copy@ == indices@,
{
    let mut copy: Vec<usize> = Vec::new();
    let mut i: usize = 0;
    while i < indices.len()
        invariant
            0 <= i <= indices@.len(),
            copy@ == indices@.take(i as int),
        decreases indices@.len() - i,
    {
        copy.push(indices[i]);
        i = i + 1;
        assert(copy@ =~= indices@.take(i as int));
    }
    assert(indices@.take(indices@.len() as int) =~= indices@);
    copy
}

/// A query that keeps its own match list, to be used with one world.
///
/// The list is brought up to date by [`update_cache`](QueryData::update_cache)
/// and [`iter`](QueryData::iter): only the archetypes that were added since
/// the last time are examined, unless the bitmasks of the query have changed
/// because a component type of its filter was registered in the meantime.
pub struct QueryData<Q: QueryItem, F: Filter> {
    items: Q,
    filter: F,
    required: u64,
    excluded: u64,
    entry: CacheEntry,
}

impl<Q: QueryItem + Copy, F: Filter> QueryData<Q, F> {
    /// What the query fetches.
    pub closed spec fn items(&self) -> Q {
        self.items
    }

    /// The filter of the query.
    pub closed spec fn filter(&self) -> F {
        self.filter
    }

    /// The indices of the archetypes found to match so far.
    pub closed spec fn matching(&self) -> Seq<usize> {
        self.entry.archetypes@
    }

    /// Number of archetypes examined so far.
    pub closed spec fn high_water_mark(&self) -> usize {
        self.entry.high_water_mark
    }

    /// The bitmasks for which the match list was made.
    pub closed spec fn masks(&self) -> (u64, u64) {
        (self.required, self.excluded)
    }

    /// The match list is right for the archetypes of the world that it has
    /// examined.
    pub open spec fn tracks(&self, world: &World) -> bool {
        &&& self.high_water_mark() <= world.archetypes().len()
        &&& self.matching() == crate::cache::matching(
            world.masks(),
            self.masks().0,
            self.masks().1,
            self.high_water_mark() as int,
        )
    }

    /// The match list is that of the query in the present state of the
    /// world.
    pub open spec fn up_to_date(&self, world: &World) -> bool {
        &&& self.masks() == (
            required_of(&self.items(), &self.filter(), world.registry()),
            excluded_of(&self.items(), &self.filter(), world.registry()),
        )
        &&& self.high_water_mark() == world.archetypes().len()
        &&& self.tracks(world)
    }

    /// A match list that was right for a world is right for every later
    /// state of it.
    pub proof fn lemma_tracks_later(&self, before: &World, world: &World)
        requires
            self.tracks(before),
            world.extends(before),
        ensures
            self.tracks(world),
    {
        crate::cache::lemma_matching_prefix(
            before.masks(),
            world.masks(),
            self.masks().0,
            self.masks().1,
            self.high_water_mark() as int,
        );
    }

    /// The query with the match list for the present state of the world.
    pub fn new(world: &World, items: Q, filter: F) -> (r: Self)
        requires
            world.wf(),
            items.ready(world.registry()),
            filter.ready(world.registry()),
        ensures
            r.items() == items,
            r.filter() == filter,
            r.up_to_date(world),
    {
        let mut data = QueryData { items, filter, required: 0, excluded: 0, entry: CacheEntry::new(
            ) };
        data.update_cache(world);
        data
    }

    /// Brings the match list up to date with the world.
    pub fn update_cache(&mut self, world: &World)
        requires
            world.wf(),
            old(self).items().ready(world.registry()),
            old(self).filter().ready(world.registry()),
            old(self).tracks(world),
        ensures
            final(self).items() == old(self).items(),
            final(self).filter() == old(self).filter(),
            final(self).up_to_date(world),
    {
        let fetched = self.items.bitmask(world);
        let filtered = self.filter.bitmask(world);
        let required = fetched.0 | filtered.0;
        let excluded = fetched.1 | filtered.1;
        if required != self.required || excluded != self.excluded {
            self.required = required;
            self.excluded = excluded;
            self.entry = CacheEntry::new();
        }
        let mut index: usize = self.entry.high_water_mark;
        while index < world.archetype_count()
            invariant
                index <= world.archetypes().len(),
                self.items == old(self).items,
                self.filter == old(self).filter,
                self.required == required,
                self.excluded == excluded,
                self.entry.archetypes@ == crate::cache::matching(
                    world.masks(),
                    required,
                    excluded,
                    index as int,
                ),
            decreases world.archetypes().len() - index,
        {
            let mask = world.archetype(index).bitmask();
            if (mask & required) == required && (mask & excluded) == 0 {
                self.entry.archetypes.push(index);
            }
            index = index + 1;
        }
        self.entry.high_water_mark = world.archetype_count();
    }

    /// Brings the match list up to date and starts a walk over the rows of
    /// the matched archetypes.
    #[must_use]
    pub fn iter(&mut self, world: &World) -> (walk: QueryIter<Q>)
        requires
            world.wf(),
            old(self).items().ready(world.registry()),
            old(self).filter().ready(world.registry()),
            old(self).tracks(world),
        ensures
            final(self).items() == old(self).items(),
            final(self).filter() == old(self).filter(),
            final(self).up_to_date(world),
            walk.items() == old(self).items(),
            walk.matching() == final(self).matching(),
            walk.fresh(),
            walk.valid_for(world),
    {
        self.update_cache(world);
        let walk = QueryIter::new(self.items, copy_indices(&self.entry.archetypes));
        proof {
            crate::bits::lemma_part_of_union(
                self.items.required(world.registry()),
                self.filter.required(world.registry()),
            );
            walk.lemma_fresh(world, self.required, self.excluded);
        }
        walk
    }
}

} // verus!
