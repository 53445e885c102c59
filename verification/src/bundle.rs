//! Bundles: the components that are put on an entity together.

use vstd::prelude::*;
use crate::archetype::Archetype;
use crate::blob_data::TypeInfo;
use crate::borrow::BorrowCounter;
use crate::component::{Component, ComponentId};
use crate::entities::Entity;
use crate::world::{Registration, World};

verus! {

/// Those of the given component types that the registry does not know, in
/// the order in which they are given.
pub open spec fn new_types(
    ids: Seq<ComponentId>,
    registry: Map<ComponentId, Registration>,
) -> Seq<ComponentId>
    decreases ids.len(),
{
    if ids.len() == 0 {
        Seq::empty()
    } else if registry.contains_key(ids.last()) {
        new_types(ids.drop_last(), registry)
    } else {
        new_types(ids.drop_last(), registry).push(ids.last())
    }
}

/// The union of the bits that the registry gives to the component types.
pub open spec fn mask_of(ids: Seq<ComponentId>, registry: Map<ComponentId, Registration>) -> u64
    decreases ids.len(),
{
    if ids.len() == 0 {
        0
    } else {
        mask_of(ids.drop_last(), registry) | crate::bits::bit(registry[ids.last()].position)
    }
}

/// A longer list of types has at least as many new ones.
pub proof fn lemma_new_types_prefix(
    ids: Seq<ComponentId>,
    registry: Map<ComponentId, Registration>,
    n: int,
)
    requires
        0 <= n <= ids.len(),
    ensures
        new_types(ids.take(n), registry).len() <= new_types(ids, registry).len(),
    decreases ids.len(),
{
    if n < ids.len() {
        lemma_new_types_prefix(ids.drop_last(), registry, n);
        assert(ids.drop_last().take(n) =~= ids.take(n));
    } else {
        assert(ids.take(n) =~= ids);
    }
}

/// A set of component values of pairwise different types, collected one at a
/// time and handed over as a whole, so that the entity they describe is
/// placed in a single archetype.
pub struct Bundle {
    components: Vec<Component>,
}

impl Bundle {
    /// The collected values, in the order in which they are stored.
    pub closed spec fn items(&self) -> Seq<Component> {
        self.components@
    }

    /// The component types of the collected values, in storage order.
    pub open spec fn ids(&self) -> Seq<ComponentId> {
        Seq::new(self.items().len(), |i: int| self.items()[i].id)
    }

    /// Tells whether the bundle holds a value of the given type.
    pub open spec fn has(&self, id: ComponentId) -> bool {
        self.ids().contains(id)
    }

    /// The bytes of each collected value, by component type.
    pub open spec fn values(&self) -> Map<ComponentId, Seq<u8>> {
        Map::new(|id: ComponentId| self.has(id), |id: ComponentId| self.items()[self.ids().index_of(
            id)].bytes@)
    }

    /// The layout of each collected value, by component type.
    pub open spec fn infos(&self) -> Map<ComponentId, TypeInfo> {
        Map::new(|id: ComponentId| self.has(id), |id: ComponentId| self.items()[self.ids().index_of(
            id)].info)
    }

    /// The representation invariant: no component type occurs twice, and
    /// every value has the size that its layout gives.
    pub open spec fn wf(&self) -> bool {
        &&& self.ids().no_duplicates()
        &&& forall|i: int| 0 <= i < self.items().len() ==> (#[trigger] self.items()[i]).wf()
    }

    /// In a well-formed bundle the value stored at a position is the value
    /// that the maps give for its type.
    pub proof fn lemma_item(&self, i: int)
        requires
            self.ids().no_duplicates(),
            0 <= i < self.items().len(),
        ensures
            self.has(self.items()[i].id),
            self.ids().index_of(self.items()[i].id) == i,
            self.values()[self.items()[i].id] == self.items()[i].bytes@,
            self.infos()[self.items()[i].id] == self.items()[i].info,
    {
        let id = self.items()[i].id;
        assert(self.ids()[i] == id);
        let k = self.ids().index_of(id);
        assert(0 <= k < self.ids().len() && self.ids()[k] == id);
    }

    /// A type that the bundle holds is stored at some position.
    pub proof fn lemma_has(&self, id: ComponentId)
        requires
            self.has(id),
        ensures
            0 <= self.ids().index_of(id) < self.items().len(),
            self.items()[self.ids().index_of(id)].id == id,
    {
        let k = self.ids().index_of(id);
        assert(0 <= k < self.ids().len() && self.ids()[k] == id);
    }

    /// Every value of a well-formed bundle has the size of its layout.
    pub proof fn lemma_sizes(&self)
        requires
            self.wf(),
        ensures
            forall|id: ComponentId| #[trigger]
                self.has(id) ==> self.values()[id].len() == self.infos()[id].size,
    {
        assert forall|id: ComponentId| #[trigger] self.has(id) implies self.values()[id].len()
            == self.infos()[id].size by {
            self.lemma_has(id);
        }
    }

    /// A bundle without values.
    pub fn new() -> (r: Self)
        ensures
            r.wf(),
            r.items().len() == 0,
            r.values() == Map::<ComponentId, Seq<u8>>::empty(),
            r.infos() == Map::<ComponentId, TypeInfo>::empty(),
    {
        let r = Bundle { components: Vec::new() };
        assert(r.values() =~= Map::<ComponentId, Seq<u8>>::empty());
        assert(r.infos() =~= Map::<ComponentId, TypeInfo>::empty());
        r
    }

    /// Number of values in the bundle.
    pub fn len(&self) -> (r: usize)
        ensures
            r == self.items().len(),
    {
        self.components.len()
    }

    /// The position at which the value of a type is stored, if the bundle
    /// holds one.
    pub fn find(&self, id: ComponentId) -> (r: Option<usize>)
        ensures
            r.is_some() == self.has(id),
            r matches Some(i) ==> i < self.items().len() && self.items()[i as int].id == id,
    {
        let mut i: usize = 0;
        while i < self.components.len()
            invariant
                0 <= i <= self.components@.len(),
                forall|k: int| 0 <= k < i ==> self.items()[k].id != id,
            decreases self.components@.len() - i,
        {
            if self.components[i].id == id {
                assert(self.ids()[i as int] == id);
                return Some(i);
            }
            i = i + 1;
        }
        assert(!self.has(id)) by {
            if self.has(id) {
                self.lemma_has(id);
            }
        }
        None
    }

    /// Tells whether the bundle holds a value of the given type.
    pub fn contains(&self, id: ComponentId) -> (r: bool)
        ensures
            r == self.has(id),
    {
        self.find(id).is_some()
    }

    /// The value of the given type, if the bundle holds one.
    pub fn get(&self, id: ComponentId) -> (r: Option<&Component>)
        requires
            self.wf(),
        ensures
            r.is_some() == self.has(id),
            r matches Some(c) ==> c.id == id && c.bytes@ == self.values()[id] && c.info
                == self.infos()[id],
    {
        match self.find(id) {
            Some(i) => {
                proof {
                    self.lemma_item(i as int);
                }
                Some(&self.components[i])
            },
            None => None,
        }
    }

    /// The value stored at a position.
    pub fn item(&self, i: usize) -> (r: &Component)
        requires
            i < self.items().len(),
        ensures
            *r == self.items()[i as int],
    {
        &self.components[i]
    }

    /// Adds a value. A value of the same type that the bundle already holds
    /// is replaced.
    pub fn insert(&mut self, component: Component)
        requires
            old(self).wf(),
            component.wf(),
        ensures
            final(self).wf(),
            final(self).values() == old(self).values().insert(component.id, component.bytes@),
            final(self).infos() == old(self).infos().insert(component.id, component.info),
    {
        let ghost id = component.id;
        let ghost bytes = component.bytes@;
        let ghost info = component.info;
        match self.find(component.id) {
            Some(i) => {
                self.components[i] = component;
                proof {
                    assert(self.ids() =~= old(self).ids());
                    assert forall|k: ComponentId| #[trigger] self.has(k) implies self.values()[k]
                        == old(self).values().insert(id, bytes)[k] && self.infos()[k]
                            == old(self).infos().insert(id, info)[k] by {
                        self.lemma_has(k);
                        if k == id {
                            self.lemma_item(i as int);
                        }
                    }
                }
            },
            None => {
                self.push(component);
            },
        }
        assert(self.values() =~= old(self).values().insert(id, bytes));
        assert(self.infos() =~= old(self).infos().insert(id, info));
    }

    /// Adds a value of a type that the bundle does not hold yet.
    pub fn push(&mut self, component: Component)
        requires
            old(self).wf(),
            component.wf(),
            !old(self).has(component.id),
        ensures
            final(self).wf(),
            final(self).items() == old(self).items().push(component),
            final(self).values() == old(self).values().insert(component.id, component.bytes@),
            final(self).infos() == old(self).infos().insert(component.id, component.info),
    {
        let ghost id = component.id;
        let ghost bytes = component.bytes@;
        let ghost info = component.info;
        self.components.push(component);
        proof {
            let n = old(self).items().len() as int;
            assert(self.ids() =~= old(self).ids().push(id));
            assert forall|a: int, b: int|
                0 <= a < self.ids().len() && 0 <= b < self.ids().len() && a
                    != b implies self.ids()[a] != self.ids()[b] by {
                if a == n {
                    assert(old(self).ids()[b] == self.ids()[b]);
                } else if b == n {
                    assert(old(self).ids()[a] == self.ids()[a]);
                }
            }
            self.lemma_item(n);
            assert forall|k: ComponentId| self.has(k) <==> (old(self).has(k) || k == id) by {
                if old(self).has(k) {
                    old(self).lemma_has(k);
                    assert(self.ids()[old(self).ids().index_of(k)] == k);
                }
                if self.has(k) && k != id {
                    self.lemma_has(k);
                    assert(old(self).ids()[self.ids().index_of(k)] == k);
                }
            }
            assert forall|k: ComponentId| #[trigger] self.has(k) implies self.values()[k]
                == old(self).values().insert(id, bytes)[k] && self.infos()[k]
                == old(self).infos().insert(
                id,
                info,
            )[k] by {
                if k != id {
                    old(self).lemma_has(k);
                    let p = old(self).ids().index_of(k);
                    assert(self.items()[p] == old(self).items()[p]);
                    self.lemma_item(p);
                }
            }
            assert(self.values() =~= old(self).values().insert(id, bytes));
            assert(self.infos() =~= old(self).infos().insert(id, info));
        }
    }

    /// Takes the value of the given type out of the bundle, if it holds one.
    pub fn remove(&mut self, id: ComponentId) -> (r: Option<Component>)
        requires
            old(self).wf(),
        ensures
            final(self).wf(),
            r.is_some() == old(self).has(id),
            r matches Some(c) ==> c.id == id && c.wf() && c.bytes@ == old(self).values()[id]
                && c.info == old(self).infos()[id],
            final(self).values() == old(self).values().remove(id),
            final(self).infos() == old(self).infos().remove(id),
    {
        match self.find(id) {
            Some(i) => {
                let removed = self.components.swap_remove(i);
                proof {
                    let n = old(self).items().len() as int;
                    old(self).lemma_item(i as int);
                    assert forall|p: int| 0 <= p < self.items().len()
                        implies #[trigger] self.items()[p]
                        == old(self).items()[if p == i {
                        n - 1
                    } else {
                        p
                    }] by {}
                    assert forall|a: int, b: int|
                        0 <= a < self.ids().len() && 0 <= b < self.ids().len() && a
                            != b implies self.ids()[a] != self.ids()[b] by {
                        let a0 = if a == i { n - 1 } else { a };
                        let b0 = if b == i { n - 1 } else { b };
                        assert(self.ids()[a] == old(self).ids()[a0]);
                        assert(self.ids()[b] == old(self).ids()[b0]);
                    }
                    assert forall|k: ComponentId| self.has(k) <==> (old(self).has(k) && k
                        != id) by {
                        if self.has(k) {
                            self.lemma_has(k);
                            let p = self.ids().index_of(k);
                            let origin = if p == i { n - 1 } else { p };
                            assert(old(self).ids()[origin] == k);
                            old(self).lemma_item(origin);
                        }
                        if old(self).has(k) && k != id {
                            old(self).lemma_has(k);
                            let origin = old(self).ids().index_of(k);
                            let p = if origin == n - 1 { i as int } else { origin };
                            assert(self.ids()[p] == k);
                        }
                    }
                    assert forall|k: ComponentId| #[trigger] self.has(k) implies self.values()[k]
                        == old(self).values()[k] && self.infos()[k] == old(self).infos()[k] by {
                        self.lemma_has(k);
                        let p = self.ids().index_of(k);
                        let origin = if p == i { n - 1 } else { p };
                        assert(old(self).ids()[origin] == k);
                        old(self).lemma_item(origin);
                    }
                    assert(self.values() =~= old(self).values().remove(id));
                    assert(self.infos() =~= old(self).infos().remove(id));
                }
                Some(removed)
            },
            None => {
                assert(self.values() =~= old(self).values().remove(id));
                assert(self.infos() =~= old(self).infos().remove(id));
                None
            },
        }
    }

    /// The column that a type has once the bundle is put into an archetype,
    /// before the value of the bundle is appended to it.
    pub open spec fn base_column(archetype: &Archetype, id: ComponentId) -> Seq<Seq<u8>> {
        if archetype.has(id) {
            archetype.table()[id]
        } else {
            Seq::empty()
        }
    }

    /// The table of an archetype after the bundle was put into it: every
    /// type of the bundle has a column, created if need be, with the value
    /// of the bundle at its end; the other columns are as before.
    pub open spec fn table_after_put(&self, archetype: &Archetype) -> Map<
        ComponentId,
        Seq<Seq<u8>>,
    > {
        Map::new(
            |id: ComponentId| archetype.has(id) || self.has(id),
            |id: ComponentId|
                if self.has(id) {
                    Self::base_column(archetype, id).push(self.values()[id])
                } else {
                    archetype.table()[id]
                },
        )
    }

    /// The layouts of an archetype after the bundle was put into it.
    pub open spec fn layout_after_put(&self, archetype: &Archetype) -> Map<ComponentId, TypeInfo> {
        Map::new(
            |id: ComponentId| archetype.has(id) || self.has(id),
            |id: ComponentId|
                if archetype.has(id) {
                    archetype.layout()[id]
                } else {
                    self.infos()[id]
                },
        )
    }

    /// The borrows of an archetype after the bundle was put into it: nothing
    /// is borrowed on a column that was created.
    pub open spec fn borrows_after_put(&self, archetype: &Archetype) -> Map<
        ComponentId,
        BorrowCounter,
    > {
        Map::new(
            |id: ComponentId| archetype.has(id) || self.has(id),
            |id: ComponentId|
                if archetype.has(id) {
                    archetype.borrows()[id]
                } else {
                    BorrowCounter::spec_new()
                },
        )
    }

    /// The bundle can be put into the archetype: where the archetype has a
    /// column for a type of the bundle, the layouts agree.
    pub open spec fn fits(&self, archetype: &Archetype) -> bool {
        forall|id: ComponentId|
            #[trigger] self.has(id) && archetype.has(id) ==> archetype.layout()[id]
                == self.infos()[id]
    }

    /// The bundle fills a row of the archetype exactly: it has a value for
    /// every column, and it brings no new column to an archetype that has
    /// rows already.
    pub open spec fn completes(&self, archetype: &Archetype) -> bool {
        &&& forall|id: ComponentId| #[trigger] archetype.has(id) ==> self.has(id)
        &&& archetype.rows().len() == 0 || forall|id: ComponentId| #[trigger]
            self.has(id) ==> archetype.has(id)
    }

    /// Tells whether one of the first `n` stored values has the given type.
    spec fn prefix_has(&self, n: int, id: ComponentId) -> bool {
        exists|j: int| 0 <= j < n && self.items()[j].id == id
    }

    /// Appends a row for the entity to the archetype: every value of the
    /// bundle goes to the end of the column of its type, which is created
    /// first where the archetype has none.
    pub fn put(self, entity: Entity, archetype: &mut Archetype)
        requires
            self.wf(),
            old(archetype).wf(),
            old(archetype).balanced(),
            self.fits(old(archetype)),
        ensures
            final(archetype).wf(),
            final(archetype).mask() == old(archetype).mask(),
            final(archetype).rows() == old(archetype).rows().push(entity),
            final(archetype).table() == self.table_after_put(old(archetype)),
            final(archetype).layout() == self.layout_after_put(old(archetype)),
            final(archetype).borrows() == self.borrows_after_put(old(archetype)),
            self.completes(old(archetype)) ==> final(archetype).balanced(),
    {
        archetype.insert_row(entity);
        let ghost start = *archetype;
        proof {
            archetype.lemma_wf();
            old(archetype).lemma_wf();
            self.lemma_sizes();
        }
        let rows: usize = archetype.count();
        let mut i: usize = 0;
        while i < self.components.len()
            invariant
                0 <= i <= self.items().len(),
                self.wf(),
                self.fits(old(archetype)),
                old(archetype).wf(),
                old(archetype).balanced(),
                old(archetype).rows().len() < usize::MAX,
                archetype.wf(),
                archetype.mask() == old(archetype).mask(),
                archetype.rows() == old(archetype).rows().push(entity),
                forall|id: ComponentId|
                    archetype.has(id) <==> (old(archetype).has(id)
                        || self.prefix_has(i as int, id)),
                forall|id: ComponentId| #[trigger]
                    archetype.has(id) ==> {
                        &&& archetype.table()[id] == if self.prefix_has(i as int, id) {
                            Self::base_column(old(archetype), id).push(self.values()[id])
                        } else {
                            old(archetype).table()[id]
                        }
                        &&& archetype.layout()[id] == if old(archetype).has(id) {
                            old(archetype).layout()[id]
                        } else {
                            self.infos()[id]
                        }
                        &&& archetype.borrows()[id] == if old(archetype).has(id) {
                            old(archetype).borrows()[id]
                        } else {
                            BorrowCounter::spec_new()
                        }
                    },
            decreases self.items().len() - i,
        {
            let component = &self.components[i];
            let ghost id = component.id;
            let ghost before = *archetype;
            proof {
                self.lemma_item(i as int);
                assert(!self.prefix_has(i as int, id)) by {
                    if self.prefix_has(i as int, id) {
                        let j = choose|j: int| 0 <= j < i && self.items()[j].id == id;
                        assert(self.ids()[j] == id);
                        assert(self.ids()[i as int] == id);
                    }
                }
            }
            archetype.with(component.id, component.info);
            archetype.insert_bytes(component.id, component.bytes.as_slice());
            proof {
                assert forall|k: ComponentId| archetype.has(k) <==> (before.has(k) || k == id) by {
                    if !before.has(id) {
                        let ids = before.ids();
                        assert(archetype.ids() == ids.push(id));
                        if before.has(k) {
                            let p = choose|p: int| 0 <= p < ids.len() && ids[p] == k;
                            assert(ids.push(id)[p] == k);
                        }
                        if archetype.has(k) && k != id {
                            let p = choose|p: int|
                                0 <= p < ids.push(id).len() && ids.push(id)[p] == k;
                            assert(ids[p] == k);
                        }
                    }
                }
                assert forall|k: ComponentId|
                    archetype.has(k) <==> (old(archetype).has(k) || self.prefix_has(
                        i + 1,
                        k,
                    )) by {
                    if self.prefix_has(i + 1, k) {
                        let j = choose|j: int| 0 <= j < i + 1 && self.items()[j].id == k;
                        if j < i {
                            assert(self.prefix_has(i as int, k));
                        }
                    }
                    if self.prefix_has(i as int, k) {
                        let j = choose|j: int| 0 <= j < i && self.items()[j].id == k;
                        assert(0 <= j < i + 1 && self.items()[j].id == k);
                    }
                    if k == id {
                        assert(0 <= i < i + 1 && self.items()[i as int].id == k);
                    }
                }
                assert forall|k: ComponentId| #[trigger] archetype.has(k) implies {
                    &&& archetype.table()[k] == if self.prefix_has(i + 1, k) {
                        Self::base_column(old(archetype), k).push(self.values()[k])
                    } else {
                        old(archetype).table()[k]
                    }
                    &&& archetype.layout()[k] == if old(archetype).has(k) {
                        old(archetype).layout()[k]
                    } else {
                        self.infos()[k]
                    }
                    &&& archetype.borrows()[k] == if old(archetype).has(k) {
                        old(archetype).borrows()[k]
                    } else {
                        BorrowCounter::spec_new()
                    }
                } by {
                    if k == id {
                        assert(0 <= i < i + 1 && self.items()[i as int].id == k);
                    } else {
                        assert(before.has(k));
                        if self.prefix_has(i + 1, k) {
                            let j = choose|j: int| 0 <= j < i + 1 && self.items()[j].id == k;
                            assert(self.prefix_has(i as int, k));
                        }
                        if self.prefix_has(i as int, k) {
                            let j = choose|j: int| 0 <= j < i && self.items()[j].id == k;
                            assert(0 <= j < i + 1 && self.items()[j].id == k);
                        }
                    }
                }
            }
            i = i + 1;
        }
        proof {
            assert forall|k: ComponentId| self.has(k) <==> self.prefix_has(
                self.items().len() as int,
                k,
            ) by {
                if self.has(k) {
                    self.lemma_has(k);
                }
                if self.prefix_has(self.items().len() as int, k) {
                    let j = choose|j: int| 0 <= j < self.items().len() && self.items()[j].id == k;
                    assert(self.ids()[j] == k);
                }
            }
            assert(archetype.table() =~= self.table_after_put(old(archetype)));
            assert(archetype.layout() =~= self.layout_after_put(old(archetype)));
            assert(archetype.borrows() =~= self.borrows_after_put(old(archetype)));
        }
    }

    /// The bitmask of the bundle in a world: the union of the bits of its
    /// component types.
    pub open spec fn spec_bitmask(&self, world: &World) -> u64 {
        mask_of(self.ids(), world.registry())
    }

    /// The world has registered every component type of the bundle.
    pub open spec fn all_registered(&self, world: &World) -> bool {
        forall|id: ComponentId| #[trigger] self.has(id) ==> world.registry().contains_key(id)
    }

    /// The bitmask of a bundle has exactly the bits of its component types.
    pub proof fn lemma_bitmask(&self, world: &World)
        requires
            world.registry_wf(),
            self.all_registered(world),
        ensures
            crate::bits::below(self.spec_bitmask(world), world.type_count()),
            forall|id: ComponentId|
                #![trigger self.has(id)]
                #![trigger world.registry().contains_key(id)]
                world.registry().contains_key(id) ==> (self.has(id) <==> crate::bits::overlaps(
                    self.spec_bitmask(world),
                    world.bit(id),
                )),
    {
        assert forall|i: int| 0 <= i < self.ids().len() implies world.registry().contains_key(
            #[trigger] self.ids()[i],
        ) by {
            assert(self.has(self.ids()[i]));
        }
        Self::lemma_mask_of(self.ids(), world);
    }

    /// The union of the bits of registered types has exactly their bits.
    proof fn lemma_mask_of(ids: Seq<ComponentId>, world: &World)
        requires
            world.registry_wf(),
            forall|i: int| 0 <= i < ids.len() ==> world.registry().contains_key(#[trigger] ids[i]),
        ensures
            crate::bits::below(mask_of(ids, world.registry()), world.type_count()),
            forall|id: ComponentId|
                #![trigger ids.contains(id)]
                #![trigger world.registry().contains_key(id)]
                world.registry().contains_key(id) ==> (ids.contains(id) <==> crate::bits::overlaps(
                    mask_of(ids, world.registry()),
                    world.bit(id),
                )),
        decreases ids.len(),
    {
        let registry = world.registry();
        let mask = mask_of(ids, registry);
        if ids.len() == 0 {
            assert forall|bits: u64| !crate::bits::overlaps(0, bits) by {
                crate::bits::lemma_empty(bits);
            }
        } else {
            let rest = ids.drop_last();
            let last = ids.last();
            let rest_mask = mask_of(rest, registry);
            let position = registry[last].position;
            assert forall|i: int| 0 <= i < rest.len() implies registry.contains_key(
                #[trigger] rest[i],
            ) by {
                assert(rest[i] == ids[i]);
            }
            Self::lemma_mask_of(rest, world);
            assert(registry.contains_key(ids[ids.len() - 1]));
            assert forall|k: u8| world.type_count() <= k < 64 implies !crate::bits::overlaps(
                mask,
                #[trigger] crate::bits::bit(k),
            ) by {
                crate::bits::lemma_union(rest_mask, crate::bits::bit(position), crate::bits::bit(
                    k));
                crate::bits::lemma_bit(position, k);
            }
            assert forall|id: ComponentId|
                #![trigger ids.contains(id)]
                #![trigger registry.contains_key(id)]
                registry.contains_key(id) implies (ids.contains(id) <==> crate::bits::overlaps(
                mask,
                world.bit(id),
            )) by {
                crate::bits::lemma_union(rest_mask, crate::bits::bit(position), world.bit(id));
                crate::bits::lemma_bit(position, registry[id].position);
                if rest.contains(id) {
                    let i = choose|i: int| 0 <= i < rest.len() && rest[i] == id;
                    assert(ids[i] == id);
                }
                if ids.contains(id) && id != last {
                    let i = choose|i: int| 0 <= i < ids.len() && ids[i] == id;
                    assert(rest[i] == id);
                }
                if id == last {
                    assert(ids[ids.len() - 1] == id);
                }
            }
        }
    }

    /// Registers every component type of the bundle in the world, each with
    /// the layout that the bundle gives for it.
    pub fn register(&self, world: &mut World)
        requires
            self.wf(),
            old(world).wf(),
            old(world).type_count() + new_types(self.ids(), old(world).registry()).len() <= 64,
        ensures
            final(world).wf(),
            final(world).extends(old(world)),
            final(world).archetypes() == old(world).archetypes(),
            final(world).index() == old(world).index(),
            final(world).entity_table() == old(world).entity_table(),
            final(world).cache_entries() == old(world).cache_entries(),
            final(world).type_ids() == old(world).type_ids() + new_types(
                self.ids(),
                old(world).registry(),
            ),
            final(world).type_count() == old(world).type_count() + new_types(
                self.ids(),
                old(world).registry(),
            ).len(),
            forall|id: ComponentId|
                #![trigger final(world).registry().contains_key(id)]
                final(world).registry().contains_key(id) <==> (old(world).registry().contains_key(
                    id,
                ) || self.has(id)),
            forall|id: ComponentId|
                #![trigger final(world).registry()[id]]
                self.has(id) && !old(world).registry().contains_key(id) ==> final(world).info(id)
                    == self.infos()[id],
    {
        proof {
            assert(old(world).type_ids() + new_types(self.ids().take(0), old(world).registry())
                =~= old(world).type_ids());
        }
        let ghost ids = self.ids();
        let ghost start = old(world).registry();
        let mut i: usize = 0;
        while i < self.components.len()
            invariant
                0 <= i <= self.items().len(),
                ids == self.ids(),
                start == old(world).registry(),
                self.wf(),
                old(world).wf(),
                old(world).type_count() + new_types(ids, start).len() <= 64,
                world.wf(),
                world.extends(old(world)),
                world.archetypes() == old(world).archetypes(),
                world.index() == old(world).index(),
                world.entity_table() == old(world).entity_table(),
                world.cache_entries() == old(world).cache_entries(),
                world.type_ids() == old(world).type_ids() + new_types(ids.take(i as int), start),
                world.type_count() == old(world).type_count() + new_types(
                    ids.take(i as int),
                    start,
                ).len(),
                forall|id: ComponentId|
                    #![trigger world.registry().contains_key(id)]
                    world.registry().contains_key(id) <==> (start.contains_key(id)
                        || self.prefix_has(
                        i as int,
                        id,
                    )),
                forall|id: ComponentId|
                    #![trigger world.registry()[id]]
                    self.prefix_has(i as int, id) && !start.contains_key(id) ==> world.info(id)
                        == self.infos()[id],
            decreases self.items().len() - i,
        {
            let component = &self.components[i];
            let ghost id = component.id;
            let ghost before = *world;
            proof {
                self.lemma_item(i as int);
                assert(ids.take(i + 1).drop_last() =~= ids.take(i as int));
                assert(ids.take(i + 1).last() == id);
                lemma_new_types_prefix(ids, start, i + 1);
                assert(!self.prefix_has(i as int, id)) by {
                    if self.prefix_has(i as int, id) {
                        let j = choose|j: int| 0 <= j < i && self.items()[j].id == id;
                        assert(self.ids()[j] == id);
                        assert(self.ids()[i as int] == id);
                    }
                }
                assert(world.registry().contains_key(id) == start.contains_key(id));
            }
            world.register_component(component.id, component.info);
            proof {
                assert(world.type_ids() =~= old(world).type_ids() + new_types(
                    ids.take(i + 1),
                    start,
                ));
                assert forall|k: ComponentId|
                    #![trigger world.registry().contains_key(k)]
                    world.registry().contains_key(k) <==> (start.contains_key(k) || self.prefix_has(
                        i + 1,
                        k,
                    )) by {
                    if self.prefix_has(i + 1, k) {
                        let j = choose|j: int| 0 <= j < i + 1 && self.items()[j].id == k;
                        if j < i {
                            assert(self.prefix_has(i as int, k));
                        }
                    }
                    if self.prefix_has(i as int, k) {
                        let j = choose|j: int| 0 <= j < i && self.items()[j].id == k;
                        assert(0 <= j < i + 1 && self.items()[j].id == k);
                    }
                    if k == id {
                        assert(0 <= i < i + 1 && self.items()[i as int].id == k);
                    } else {
                        assert(world.registry().contains_key(k) == before.registry().contains_key(
                            k,
                        ));
                    }
                }
                assert forall|k: ComponentId|
                    #![trigger world.registry()[k]]
                    self.prefix_has(i + 1, k) && !start.contains_key(k) implies world.info(k)
                    == self.infos()[k] by {
                    let j = choose|j: int| 0 <= j < i + 1 && self.items()[j].id == k;
                    if j < i {
                        assert(self.prefix_has(i as int, k));
                        assert(before.registry().contains_key(k));
                    } else {
                        assert(k == id);
                    }
                }
                assert forall|k: ComponentId| #[trigger]
                    old(world).registry().contains_key(k) implies world.registry().contains_key(k)
                    && world.registry()[k] == old(world).registry()[k] by {
                    assert(before.registry().contains_key(k));
                }
            }
            i = i + 1;
        }
        proof {
            assert(ids.take(self.items().len() as int) =~= ids);
            assert forall|k: ComponentId| self.has(k) <==> self.prefix_has(
                self.items().len() as int,
                k,
            ) by {
                if self.has(k) {
                    self.lemma_has(k);
                }
                if self.prefix_has(self.items().len() as int, k) {
                    let j = choose|j: int| 0 <= j < self.items().len() && self.items()[j].id == k;
                    assert(self.ids()[j] == k);
                }
            }
        }
    }

    /// The bitmask of the bundle: the union of the bits of its component
    /// types, all of which must be registered.
    pub fn bitmask(&self, world: &World) -> (mask: u64)
        requires
            world.wf(),
            self.all_registered(world),
        ensures
            mask == self.spec_bitmask(world),
    {
        let mut mask: u64 = 0;
        let mut i: usize = 0;
        while i < self.components.len()
            invariant
                0 <= i <= self.items().len(),
                world.wf(),
                self.all_registered(world),
                mask == mask_of(self.ids().take(i as int), world.registry()),
            decreases self.items().len() - i,
        {
            proof {
                assert(self.ids().take(i + 1).drop_last() =~= self.ids().take(i as int));
                assert(self.ids().take(i + 1).last() == self.items()[i as int].id);
                assert(self.ids()[i as int] == self.items()[i as int].id);
                assert(self.has(self.items()[i as int].id));
            }
            let bit = match world.bit_of(self.components[i].id) {
                Some(bit) => bit,
                None => 0,
            };
            mask = mask | bit;
            i = i + 1;
        }
        proof {
            assert(self.ids().take(self.items().len() as int) =~= self.ids());
        }
        mask
    }
}

} // verus!
