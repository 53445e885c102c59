//! Archetypes: the table of all entities that carry one set of component
//! types.

use vstd::prelude::*;
use crate::blob_data::{BlobData, TypeInfo};
use crate::borrow::BorrowCounter;
use crate::bundle::Bundle;
use crate::component::{Component, ComponentId};
use crate::entities::Entity;

verus! {

/// One column of an archetype: the values of one component type.
struct Column {
    id: ComponentId,
    blob: BlobData,
}

/// A table with one column per component type and one row per entity.
///
/// The table is described by three maps over the component types it has a
/// column for ([`table`](Archetype::table), [`layout`](Archetype::layout),
/// [`borrows`](Archetype::borrows)), by the entities of its rows, and by its
/// bitmask.
pub struct Archetype {
    columns: Vec<Column>,
    rows: Vec<Entity>,
    count: usize,
    bitmask: u64,
}

impl Archetype {
    /// The component types that have a column, in storage order.
    pub closed spec fn ids(&self) -> Seq<ComponentId> {
        Seq::new(self.columns@.len(), |i: int| self.columns@[i].id)
    }

    /// Tells whether the archetype has a column for the given type.
    pub open spec fn has(&self, id: ComponentId) -> bool {
        self.ids().contains(id)
    }

    /// The column of the given type.
    pub closed spec fn blob(&self, id: ComponentId) -> BlobData {
        self.columns@[self.ids().index_of(id)].blob
    }

    /// The values of every column, by component type.
    pub open spec fn table(&self) -> Map<ComponentId, Seq<Seq<u8>>> {
        Map::new(|id: ComponentId| self.has(id), |id: ComponentId| self.blob(id)@)
    }

    /// The layout of every column, by component type.
    pub open spec fn layout(&self) -> Map<ComponentId, TypeInfo> {
        Map::new(|id: ComponentId| self.has(id), |id: ComponentId| self.blob(id).spec_info())
    }

    /// The borrows outstanding on every column, by component type.
    pub open spec fn borrows(&self) -> Map<ComponentId, BorrowCounter> {
        Map::new(|id: ComponentId| self.has(id), |id: ComponentId| self.blob(id).spec_borrow())
    }

    /// The entity of every row.
    pub closed spec fn rows(&self) -> Seq<Entity> {
        self.rows@
    }

    /// The bitmask that identifies the archetype.
    pub closed spec fn mask(&self) -> u64 {
        self.bitmask
    }

    /// The row count as the archetype records it.
    pub closed spec fn spec_count(&self) -> usize {
        self.count
    }

    /// The representation invariant: no component type has two columns,
    /// every column is well formed, and the recorded count is the number of
    /// rows.
    pub closed spec fn wf(&self) -> bool {
        &&& self.ids().no_duplicates()
        &&& forall|i: int| 0 <= i < self.columns@.len() ==> (#[trigger] self.columns@[i]).blob.wf()
        &&& self.count == self.rows@.len()
    }

    /// Every column has exactly one value per row.
    pub open spec fn balanced(&self) -> bool {
        forall|id: ComponentId| #[trigger] self.has(id) ==> self.table()[id].len()
            == self.rows().len()
    }

    /// Two archetypes that differ at most in the borrows outstanding on
    /// their columns.
    pub open spec fn same_rows(&self, other: &Archetype) -> bool {
        &&& self.table() == other.table()
        &&& self.layout() == other.layout()
        &&& self.rows() == other.rows()
        &&& self.mask() == other.mask()
        &&& self.wf() == other.wf()
    }

    /// In a well-formed archetype the count is the number of rows, every
    /// column is well formed, and every value has the size of its column's
    /// layout.
    pub proof fn lemma_wf(&self)
        requires
            self.wf(),
        ensures
            self.spec_count() == self.rows().len(),
            forall|id: ComponentId| #[trigger] self.has(id) ==> self.blob(id).wf(),
            forall|id: ComponentId, row: int|
                self.has(id) && 0 <= row < self.table()[id].len() ==> (
                #[trigger] self.table()[id][row]).len() == self.layout()[id].size,
    {
        assert forall|id: ComponentId| #[trigger] self.has(id) implies self.blob(id).wf() by {
            self.lemma_has(id);
        }
        assert forall|id: ComponentId, row: int|
            self.has(id) && 0 <= row < self.table()[id].len() implies (
        #[trigger] self.table()[id][row]).len() == self.layout()[id].size by {
            self.blob(id).lemma_layout();
        }
    }

    /// The column stored at a position is the column of its type.
    proof fn lemma_column(&self, i: int)
        requires
            self.ids().no_duplicates(),
            0 <= i < self.columns@.len(),
        ensures
            self.has(self.columns@[i].id),
            self.ids().index_of(self.columns@[i].id) == i,
            self.blob(self.columns@[i].id) == self.columns@[i].blob,
    {
        let id = self.columns@[i].id;
        assert(self.ids()[i] == id);
        let k = self.ids().index_of(id);
        assert(0 <= k < self.ids().len() && self.ids()[k] == id);
    }

    /// A type that has a column has it at some position.
    proof fn lemma_has(&self, id: ComponentId)
        requires
            self.has(id),
        ensures
            0 <= self.ids().index_of(id) < self.columns@.len(),
            self.columns@[self.ids().index_of(id)].id == id,
    {
        let k = self.ids().index_of(id);
        assert(0 <= k < self.ids().len() && self.ids()[k] == id);
    }

    /// An archetype with the given bitmask, without columns and without rows.
    pub fn new(bitmask: u64) -> (r: Self)
        ensures
            r.wf(),
            r.balanced(),
            r.mask() == bitmask,
            r.rows().len() == 0,
            r.ids().len() == 0,
            r.table() == Map::<ComponentId, Seq<Seq<u8>>>::empty(),
            r.layout() == Map::<ComponentId, TypeInfo>::empty(),
            r.borrows() == Map::<ComponentId, BorrowCounter>::empty(),
    {
        let r = Self { columns: Vec::new(), rows: Vec::new(), count: 0, bitmask };
        assert(r.table() =~= Map::<ComponentId, Seq<Seq<u8>>>::empty());
        assert(r.layout() =~= Map::<ComponentId, TypeInfo>::empty());
        assert(r.borrows() =~= Map::<ComponentId, BorrowCounter>::empty());
        r
    }

    /// The position of the column of a type, if there is one.
    fn find(&self, id: ComponentId) -> (r: Option<usize>)
        ensures
            r.is_some() == self.has(id),
            r matches Some(i) ==> i < self.columns@.len() && self.columns@[i as int].id == id,
    {
        let mut i: usize = 0;
        while i < self.columns.len()
            invariant
                0 <= i <= self.columns@.len(),
                forall|k: int| 0 <= k < i ==> self.columns@[k].id != id,
            decreases self.columns@.len() - i,
        {
            if self.columns[i].id == id {
                assert(self.ids()[i as int] == id);
                return Some(i);
            }
            i = i + 1;
        }
        assert(!self.has(id)) by {
            if self.has(id) {
                self.lemma_has(id);
            }
        }
        None
    }

    /// Makes sure that the archetype has a column for the given type, adding
    /// an empty one with the given layout if it has none.
    pub fn with(&mut self, id: ComponentId, info: TypeInfo)
        requires
            old(self).wf(),
        ensures
            final(self).wf(),
            final(self).rows() == old(self).rows(),
            final(self).mask() == old(self).mask(),
            final(self).has(id),
            old(self).has(id) ==> {
                &&& final(self).ids() == old(self).ids()
                &&& final(self).table() == old(self).table()
                &&& final(self).layout() == old(self).layout()
                &&& final(self).borrows() == old(self).borrows()
            },
            !old(self).has(id) ==> {
                &&& final(self).ids() == old(self).ids().push(id)
                &&& final(self).table() == old(self).table().insert(id, Seq::empty())
                &&& final(self).layout() == old(self).layout().insert(id, info)
                &&& final(self).borrows() == old(self).borrows().insert(
                    id,
                    BorrowCounter::spec_new(),
                )
            },
    {
        if self.find(id).is_some() {
            return ;
        }
        self.columns.push(Column { id, blob: BlobData::new(info) });
        proof {
            let n = old(self).columns@.len() as int;
            assert(self.ids() =~= old(self).ids().push(id));
            assert forall|a: int, b: int|
                0 <= a < self.ids().len() && 0 <= b < self.ids().len() && a
                    != b implies self.ids()[a] != self.ids()[b] by {
                if a == n {
                    assert(old(self).ids()[b] == self.ids()[b]);
                } else if b == n {
                    assert(old(self).ids()[a] == self.ids()[a]);
                }
            }
            self.lemma_column(n);
            self.lemma_extended(old(self), id);
            assert(self.table() =~= old(self).table().insert(id, Seq::empty()));
            assert(self.layout() =~= old(self).layout().insert(id, info));
            assert(self.borrows() =~= old(self).borrows().insert(id, BorrowCounter::spec_new()));
        }
    }

    /// After a column for `id` was appended, the columns of all other types
    /// are the ones from before.
    proof fn lemma_extended(&self, before: &Archetype, id: ComponentId)
        requires
            self.ids() == before.ids().push(id),
            self.ids().no_duplicates(),
            before.ids().no_duplicates(),
            forall|i: int| 0 <= i < before.columns@.len() ==> self.columns@[i]
                == before.columns@[i],
        ensures
            forall|k: ComponentId| self.has(k) <==> (before.has(k) || k == id),
            forall|k: ComponentId| #[trigger] before.has(k) ==> self.blob(k) == before.blob(k),
    {
        let n = before.columns@.len() as int;
        assert(self.ids()[n] == id);
        assert forall|k: ComponentId| self.has(k) <==> (before.has(k) || k == id) by {
            if before.has(k) {
                before.lemma_has(k);
                assert(self.ids()[before.ids().index_of(k)] == k);
            }
            if self.has(k) && k != id {
                self.lemma_has(k);
                assert(before.ids()[self.ids().index_of(k)] == k);
            }
        }
        assert forall|k: ComponentId| #[trigger] before.has(k) implies self.blob(k) == before.blob(
            k,
        ) by {
            before.lemma_has(k);
            let p = before.ids().index_of(k);
            self.lemma_column(p);
        }
    }

    /// Appends a value to the column of its type. Without such a column the
    /// value is discarded.
    pub fn insert(&mut self, component: Component)
        requires
            old(self).wf(),
            old(self).has(component.id) ==> component.bytes@.len()
                == old(self).layout()[component.id].size
                && old(self).table()[component.id].len() < usize::MAX,
        ensures
            final(self).wf(),
            final(self).rows() == old(self).rows(),
            final(self).mask() == old(self).mask(),
            final(self).ids() == old(self).ids(),
            final(self).layout() == old(self).layout(),
            final(self).borrows() == old(self).borrows(),
            final(self).table() == if old(self).has(component.id) {
                old(self).table().insert(
                    component.id,
                    old(self).table()[component.id].push(component.bytes@),
                )
            } else {
                old(self).table()
            },
    {
        self.insert_bytes(component.id, component.bytes.as_slice());
    }

    /// Appends a value, given as its bytes, to the column of the given type.
    /// Without such a column nothing happens.
    pub fn insert_bytes(&mut self, id: ComponentId, bytes: &[u8])
        requires
            old(self).wf(),
            old(self).has(id) ==> bytes@.len() == old(self).layout()[id].size
                && old(self).table()[id].len() < usize::MAX,
        ensures
            final(self).wf(),
            final(self).rows() == old(self).rows(),
            final(self).mask() == old(self).mask(),
            final(self).ids() == old(self).ids(),
            final(self).layout() == old(self).layout(),
            final(self).borrows() == old(self).borrows(),
            final(self).table() == if old(self).has(id) {
                old(self).table().insert(id, old(self).table()[id].push(bytes@))
            } else {
                old(self).table()
            },
    {
        match self.find(id) {
            Some(i) => {
                proof {
                    old(self).lemma_column(i as int);
                }
                self.columns[i].blob.push_bytes(bytes);
                proof {
                    assert(self.ids() =~= old(self).ids());
                    self.lemma_column(i as int);
                    self.lemma_changed(old(self), i as int);
                    assert(self.table() =~= old(self).table().insert(
                        id,
                        old(self).table()[id].push(bytes@),
                    ));
                    assert(self.layout() =~= old(self).layout());
                    assert(self.borrows() =~= old(self).borrows());
                }
            },
            None => {},
        }
    }

    /// After only the column at position `i` was touched, the columns of all
    /// other types are the ones from before.
    proof fn lemma_changed(&self, before: &Archetype, i: int)
        requires
            self.ids() == before.ids(),
            self.ids().no_duplicates(),
            0 <= i < self.columns@.len(),
            self.columns@.len() == before.columns@.len(),
            forall|j: int|
                0 <= j < before.columns@.len() && j != i ==> self.columns@[j] == before.columns@[j],
        ensures
            forall|k: ComponentId|
                #[trigger] self.has(k) && k != self.columns@[i].id ==> self.blob(k) == before.blob(
                    k,
                ),
    {
        assert forall|k: ComponentId| #[trigger]
            self.has(k) && k != self.columns@[i].id implies self.blob(k) == before.blob(k) by {
            self.lemma_has(k);
        }
    }

    /// Appends a row for the given entity.
    pub fn insert_row(&mut self, entity: Entity)
        requires
            old(self).wf(),
        ensures
            final(self).wf(),
            final(self).rows() == old(self).rows().push(entity),
            final(self).mask() == old(self).mask(),
            final(self).ids() == old(self).ids(),
            final(self).table() == old(self).table(),
            final(self).layout() == old(self).layout(),
            final(self).borrows() == old(self).borrows(),
    {
        self.rows.push(entity);
        self.count = self.rows.len();
        proof {
            assert(self.ids() =~= old(self).ids());
            assert(self.table() =~= old(self).table());
            assert(self.layout() =~= old(self).layout());
            assert(self.borrows() =~= old(self).borrows());
        }
    }

    /// The value of the given type in the given row, if there is one.
    #[must_use]
    pub fn get(&self, id: ComponentId, row: usize) -> (r: Option<&[u8]>)
        requires
            self.wf(),
        ensures
            r.is_some() == (self.has(id) && row < self.rows().len() && row
                < self.table()[id].len()),
            r matches Some(bytes) ==> bytes@ == self.table()[id][row as int],
    {
        self.get_bytes(id, row)
    }

    /// The bytes of the value of the given type in the given row, if there
    /// is one.
    #[must_use]
    pub fn get_bytes(&self, id: ComponentId, row: usize) -> (r: Option<&[u8]>)
        requires
            self.wf(),
        ensures
            r.is_some() == (self.has(id) && row < self.rows().len() && row
                < self.table()[id].len()),
            r matches Some(bytes) ==> bytes@ == self.table()[id][row as int],
    {
        match self.find(id) {
            Some(i) => {
                proof {
                    self.lemma_column(i as int);
                }
                if self.count > row {
                    self.columns[i].blob.get(row)
                } else {
                    None
                }
            },
            None => None,
        }
    }

    /// Overwrites the value of the given type in the given row and hands
    /// back the bytes it held. Without such a value nothing happens.
    pub fn replace(&mut self, id: ComponentId, row: usize, bytes: &[u8]) -> (previous: Option<
        Vec<u8>,
    >)
        requires
            old(self).wf(),
            old(self).has(id) ==> bytes@.len() == old(self).layout()[id].size,
        ensures
            final(self).wf(),
            final(self).rows() == old(self).rows(),
            final(self).mask() == old(self).mask(),
            final(self).ids() == old(self).ids(),
            final(self).layout() == old(self).layout(),
            final(self).borrows() == old(self).borrows(),
            previous.is_some() == (old(self).has(id) && row < old(self).table()[id].len()),
            previous matches Some(p) ==> p@ == old(self).table()[id][row as int]
                && final(self).table() == old(self).table().insert(
                id,
                old(self).table()[id].update(row as int, bytes@),
            ),
            previous.is_none() ==> final(self).table() == old(self).table(),
    {
        match self.find(id) {
            Some(i) => {
                proof {
                    old(self).lemma_column(i as int);
                }
                if row >= self.columns[i].blob.len() {
                    return None;
                }
                let previous = self.columns[i].blob.replace(row, bytes);
                proof {
                    assert(self.ids() =~= old(self).ids());
                    self.lemma_column(i as int);
                    self.lemma_changed(old(self), i as int);
                    assert(self.table() =~= old(self).table().insert(
                        id,
                        old(self).table()[id].update(row as int, bytes@),
                    ));
                    assert(self.layout() =~= old(self).layout());
                    assert(self.borrows() =~= old(self).borrows());
                }
                Some(previous)
            },
            None => None,
        }
    }

    /// Removes a row, discarding its values: in every column, and in the
    /// list of entities, the last row moves into its place. Returns the
    /// entity that moved, if any did. A row past the end is left alone.
    pub fn swap_remove(&mut self, index: usize) -> (moved: Option<Entity>)
        requires
            old(self).wf(),
            old(self).balanced(),
        ensures
            final(self).wf(),
            final(self).balanced(),
            final(self).mask() == old(self).mask(),
            final(self).ids() == old(self).ids(),
            final(self).layout() == old(self).layout(),
            final(self).borrows() == old(self).borrows(),
            index >= old(self).rows().len() ==> {
                &&& moved.is_none()
                &&& final(self).table() == old(self).table()
                &&& final(self).rows() == old(self).rows()
            },
            index < old(self).rows().len() ==> {
                &&& moved == if index == old(self).rows().len() - 1 {
                    None
                } else {
                    Some(old(self).rows().last())
                }
                &&& final(self).rows() == crate::blob_data::swap_removed(
                    old(self).rows(),
                    index as int,
                )
                &&& final(self).table() == old(self).table().map_values(
                    |column: Seq<Seq<u8>>| crate::blob_data::swap_removed(column, index as int),
                )
            },
    {
        let (moved, _dropped) = self.take_row(index, false);
        moved
    }

    /// Removes a row and hands its values over instead of discarding them;
    /// otherwise like [`swap_remove`](Archetype::swap_remove). The bundle
    /// holds the value of every column in that row.
    #[must_use]
    pub fn move_to(&mut self, index: usize) -> (r: (Option<Entity>, Bundle))
        requires
            old(self).wf(),
            old(self).balanced(),
        ensures
            final(self).wf(),
            final(self).balanced(),
            final(self).mask() == old(self).mask(),
            final(self).ids() == old(self).ids(),
            final(self).layout() == old(self).layout(),
            final(self).borrows() == old(self).borrows(),
            r.1.wf(),
            index >= old(self).rows().len() ==> {
                &&& r.0.is_none()
                &&& r.1.items().len() == 0
                &&& final(self).table() == old(self).table()
                &&& final(self).rows() == old(self).rows()
            },
            index < old(self).rows().len() ==> {
                &&& r.0 == if index == old(self).rows().len() - 1 {
                    None
                } else {
                    Some(old(self).rows().last())
                }
                &&& final(self).rows() == crate::blob_data::swap_removed(
                    old(self).rows(),
                    index as int,
                )
                &&& final(self).table() == old(self).table().map_values(
                    |column: Seq<Seq<u8>>| crate::blob_data::swap_removed(column, index as int),
                )
                &&& r.1.values() == old(self).table().map_values(
                    |column: Seq<Seq<u8>>| column[index as int],
                )
                &&& r.1.infos() == old(self).layout()
            },
    {
        self.take_row(index, true)
    }

    /// The common part of [`swap_remove`](Archetype::swap_remove) and
    /// [`move_to`](Archetype::move_to): removes the row and, if `keep` is
    /// set, collects its values.
    fn take_row(&mut self, index: usize, keep: bool) -> (r: (Option<Entity>, Bundle))
        requires
            old(self).wf(),
            old(self).balanced(),
        ensures
            final(self).wf(),
            final(self).balanced(),
            final(self).mask() == old(self).mask(),
            final(self).ids() == old(self).ids(),
            final(self).layout() == old(self).layout(),
            final(self).borrows() == old(self).borrows(),
            r.1.wf(),
            index >= old(self).rows().len() ==> {
                &&& r.0.is_none()
                &&& r.1.items().len() == 0
                &&& final(self).table() == old(self).table()
                &&& final(self).rows() == old(self).rows()
            },
            index < old(self).rows().len() ==> {
                &&& r.0 == if index == old(self).rows().len() - 1 {
                    None
                } else {
                    Some(old(self).rows().last())
                }
                &&& final(self).rows() == crate::blob_data::swap_removed(
                    old(self).rows(),
                    index as int,
                )
                &&& final(self).table() == old(self).table().map_values(
                    |column: Seq<Seq<u8>>| crate::blob_data::swap_removed(column, index as int),
                )
                &&& keep ==> r.1.values() == old(self).table().map_values(
                    |column: Seq<Seq<u8>>| column[index as int],
                ) && r.1.infos() == old(self).layout()
            },
    {
        let mut bundle = Bundle::new();
        if index >= self.count {
            return (None, bundle);
        }
        let ghost before = old(self).columns@;
        let mut i: usize = 0;
        while i < self.columns.len()
            invariant
                0 <= i <= self.columns@.len(),
                self.columns@.len() == before.len(),
                before == old(self).columns@,
                old(self).wf(),
                old(self).balanced(),
                index < old(self).count,
                self.rows == old(self).rows,
                self.count == old(self).count,
                self.bitmask == old(self).bitmask,
                forall|j: int|
                    0 <= j < i ==> {
                        &&& (#[trigger] self.columns@[j]).id == before[j].id
                        &&& self.columns@[j].blob.wf()
                        &&& self.columns@[j].blob@ == crate::blob_data::swap_removed(
                            before[j].blob@,
                            index as int,
                        )
                        &&& self.columns@[j].blob.spec_info() == before[j].blob.spec_info()
                        &&& self.columns@[j].blob.spec_borrow() == before[j].blob.spec_borrow()
                    },
                forall|j: int| i <= j < before.len() ==> self.columns@[j] == before[j],
                bundle.wf(),
                keep ==> bundle.items().len() == i,
                !keep ==> bundle.items().len() == 0,
                keep ==> forall|j: int|
                    0 <= j < i ==> {
                        &&& (#[trigger] bundle.items()[j]).id == before[j].id
                        &&& bundle.items()[j].info == before[j].blob.spec_info()
                        &&& bundle.items()[j].bytes@ == before[j].blob@[index as int]
                    },
            decreases before.len() - i,
        {
            proof {
                old(self).lemma_column(i as int);
                assert(old(self).has(before[i as int].id));
                assert(old(self).table()[before[i as int].id].len() == old(self).rows().len());
                before[i as int].blob.lemma_layout();
            }
            let removed = self.columns[i].blob.swap_remove(index);
            if keep {
                let id = self.columns[i].id;
                let info = *self.columns[i].blob.type_info();
                proof {
                    assert(!bundle.has(id)) by {
                        if bundle.has(id) {
                            bundle.lemma_has(id);
                            let p = bundle.ids().index_of(id);
                            assert(old(self).ids()[p] == id);
                            assert(old(self).ids()[i as int] == id);
                        }
                    }
                }
                bundle.push(Component::new(id, info, removed));
            }
            i = i + 1;
        }
        let moved = if index == self.count - 1 {
            self.rows.pop();
            None
        } else {
            let last = self.rows[self.count - 1];
            self.rows.swap_remove(index);
            Some(last)
        };
        self.count = self.count - 1;
        proof {
            assert(self.rows() =~= crate::blob_data::swap_removed(
                old(self).rows(),
                index as int,
            ));
            assert(self.ids() =~= old(self).ids());
            assert forall|k: ComponentId| #[trigger] old(self).has(k) implies {
                &&& self.blob(k).wf()
                &&& self.blob(k)@
                    == crate::blob_data::swap_removed(old(self).blob(k)@, index as int)
                &&& self.blob(k).spec_info() == old(self).blob(k).spec_info()
                &&& self.blob(k).spec_borrow() == old(self).blob(k).spec_borrow()
                &&& old(self).blob(k)@.len() == old(self).rows().len()
            } by {
                old(self).lemma_has(k);
                assert(old(self).table()[k].len() == old(self).rows().len());
            }
            assert(self.table() =~= old(self).table().map_values(
                |column: Seq<Seq<u8>>| crate::blob_data::swap_removed(column, index as int),
            ));
            assert(self.layout() =~= old(self).layout());
            assert(self.borrows() =~= old(self).borrows());
            assert forall|k: ComponentId| #[trigger] self.has(k) implies self.table()[k].len()
                == self.rows().len() by {
                assert(old(self).has(k));
                assert(self.blob(k)@.len() == old(self).blob(k)@.len() - 1);
            }
            if keep {
                assert(bundle.ids() =~= old(self).ids());
                assert forall|k: ComponentId| #[trigger] bundle.has(k) implies bundle.values()[k]
                    == old(self).blob(k)@[index as int] && bundle.infos()[k] == old(self).blob(
                    k,
                ).spec_info() by {
                    bundle.lemma_has(k);
                }
                assert(bundle.values() =~= old(self).table().map_values(
                    |column: Seq<Seq<u8>>| column[index as int],
                ));
                assert(bundle.infos() =~= old(self).layout());
            }
        }
        (moved, bundle)
    }

    /// The entity of every row.
    #[must_use]
    pub fn entities(&self) -> (r: &Vec<Entity>)
        ensures
            r@ == self.rows(),
    {
        &self.rows
    }

    /// The column of the given type, if there is one.
    #[must_use]
    pub fn column(&self, id: ComponentId) -> (r: Option<&BlobData>)
        requires
            self.wf(),
        ensures
            r.is_some() == self.has(id),
            r matches Some(blob) ==> *blob == self.blob(id) && blob.wf(),
    {
        match self.find(id) {
            Some(i) => {
                proof {
                    self.lemma_column(i as int);
                }
                Some(&self.columns[i].blob)
            },
            None => None,
        }
    }

    /// Tries to take a shared borrow of the column of the given type. It is
    /// refused when there is no such column.
    #[must_use]
    pub fn borrow(&mut self, id: ComponentId) -> (ok: bool)
        requires
            old(self).wf(),
        ensures
            final(self).same_rows(old(self)),
            final(self).wf(),
            final(self).ids() == old(self).ids(),
            ok == (old(self).has(id) && old(self).borrows()[id].can_share()),
            final(self).borrows() == if ok {
                old(self).borrows().insert(id, old(self).borrows()[id].shared_taken())
            } else {
                old(self).borrows()
            },
    {
        match self.find(id) {
            Some(i) => {
                proof {
                    old(self).lemma_column(i as int);
                }
                let ok = self.columns[i].blob.borrow();
                proof {
                    self.lemma_touched(old(self), i as int);
                    assert(self.borrows() =~= if ok {
                        old(self).borrows().insert(id, old(self).borrows()[id].shared_taken())
                    } else {
                        old(self).borrows()
                    });
                }
                ok
            },
            None => false,
        }
    }

    /// Tries to take the exclusive borrow of the column of the given type. It
    /// is refused when there is no such column.
    #[must_use]
    pub fn borrow_mut(&mut self, id: ComponentId) -> (ok: bool)
        requires
            old(self).wf(),
        ensures
            final(self).same_rows(old(self)),
            final(self).wf(),
            final(self).ids() == old(self).ids(),
            ok == (old(self).has(id) && old(self).borrows()[id].is_free()),
            final(self).borrows() == if ok {
                old(self).borrows().insert(id, old(self).borrows()[id].exclusive_taken())
            } else {
                old(self).borrows()
            },
    {
        match self.find(id) {
            Some(i) => {
                proof {
                    old(self).lemma_column(i as int);
                }
                let ok = self.columns[i].blob.borrow_mut();
                proof {
                    self.lemma_touched(old(self), i as int);
                    assert(self.borrows() =~= if ok {
                        old(self).borrows().insert(id, old(self).borrows()[id].exclusive_taken())
                    } else {
                        old(self).borrows()
                    });
                }
                ok
            },
            None => false,
        }
    }

    /// Gives back one shared borrow of the column of the given type, if
    /// there is such a column and a shared borrow is held on it.
    pub fn release(&mut self, id: ComponentId)
        requires
            old(self).wf(),
        ensures
            final(self).same_rows(old(self)),
            final(self).wf(),
            final(self).ids() == old(self).ids(),
            final(self).borrows() == if old(self).has(id) {
                old(self).borrows().insert(id, old(self).borrows()[id].shared_released())
            } else {
                old(self).borrows()
            },
    {
        match self.find(id) {
            Some(i) => {
                proof {
                    old(self).lemma_column(i as int);
                }
                self.columns[i].blob.release();
                proof {
                    self.lemma_touched(old(self), i as int);
                    assert(self.borrows() =~= old(self).borrows().insert(
                        id,
                        old(self).borrows()[id].shared_released(),
                    ));
                }
            },
            None => {},
        }
    }

    /// Gives back the exclusive borrow of the column of the given type, if
    /// there is such a column and the exclusive borrow is held on it.
    pub fn release_mut(&mut self, id: ComponentId)
        requires
            old(self).wf(),
        ensures
            final(self).same_rows(old(self)),
            final(self).wf(),
            final(self).ids() == old(self).ids(),
            final(self).borrows() == if old(self).has(id) {
                old(self).borrows().insert(id, old(self).borrows()[id].exclusive_released())
            } else {
                old(self).borrows()
            },
    {
        match self.find(id) {
            Some(i) => {
                proof {
                    old(self).lemma_column(i as int);
                }
                self.columns[i].blob.release_mut();
                proof {
                    self.lemma_touched(old(self), i as int);
                    assert(self.borrows() =~= old(self).borrows().insert(
                        id,
                        old(self).borrows()[id].exclusive_released(),
                    ));
                }
            },
            None => {},
        }
    }

    /// After only the borrows of the column at position `i` were touched,
    /// the rows are the ones from before.
    proof fn lemma_touched(&self, before: &Archetype, i: int)
        requires
            before.wf(),
            0 <= i < before.columns@.len(),
            self.columns@.len() == before.columns@.len(),
            self.rows == before.rows,
            self.count == before.count,
            self.bitmask == before.bitmask,
            self.columns@[i].id == before.columns@[i].id,
            self.columns@[i].blob.same_values(&before.columns@[i].blob),
            forall|j: int|
                0 <= j < before.columns@.len() && j != i ==> self.columns@[j] == before.columns@[j],
        ensures
            self.wf(),
            self.same_rows(before),
            self.ids() == before.ids(),
            self.blob(self.columns@[i].id) == self.columns@[i].blob,
            before.blob(self.columns@[i].id) == before.columns@[i].blob,
            forall|k: ComponentId|
                #[trigger] self.has(k) && k != self.columns@[i].id ==> self.blob(k) == before.blob(
                    k,
                ),
    {
        assert(self.ids() =~= before.ids());
        self.lemma_column(i);
        before.lemma_column(i);
        self.lemma_changed(before, i);
        assert forall|j: int| 0 <= j < self.columns@.len() implies (
        #[trigger] self.columns@[j]).blob.wf() by {
            if j != i {
                assert(self.columns@[j] == before.columns@[j]);
            }
        }
        assert(self.table() =~= before.table());
        assert(self.layout() =~= before.layout());
    }

    /// The bitmask that identifies the archetype.
    #[must_use]
    pub fn bitmask(&self) -> (r: u64)
        ensures
            r == self.mask(),
    {
        self.bitmask
    }

    /// Number of rows.
    #[must_use]
    pub fn count(&self) -> (r: usize)
        ensures
            r == self.spec_count(),
    {
        self.count
    }
}

} // verus!
