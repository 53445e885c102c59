//! Entity handles and the generational table behind them.

use vstd::prelude::*;

verus! {

/// A handle to an entity: a slot of the entity table and the generation the
/// slot had when the handle was issued.
#[derive(Debug, Clone, Copy, PartialEq, Eq, Hash, Structural)]
pub struct Entity {
    pub index: usize,
    pub generation: usize,
}

impl Entity {
    /// The slot of the entity table that this handle names.
    pub fn index(&self) -> (r: usize)
        ensures
            r == self.index,
    {
        self.index
    }

    /// The generation of the slot at the time the handle was issued.
    pub fn generation(&self) -> (r: usize)
        ensures
            r == self.generation,
    {
        self.generation
    }
}

/// Where the components of an entity are stored: an archetype and a row in
/// it. The place with both fields at their maximum stands for "nowhere".
#[derive(Debug, Clone, Copy, PartialEq, Eq, Hash, Structural)]
pub struct Location {
    pub archetype: usize,
    pub row: usize,
}

impl Location {
    /// The location of an entity without components.
    pub open spec fn spec_empty() -> Location {
        Location { archetype: usize::MAX, row: usize::MAX }
    }

    /// The location of an entity without components.
    #[verifier::when_used_as_spec(spec_empty)]
    pub fn empty() -> (r: Location)
        ensures
            r == Location::spec_empty(),
    {
        Location { archetype: usize::MAX, row: usize::MAX }
    }

    /// Tells whether this is the location of an entity without components.
    pub fn is_empty(&self) -> (r: bool)
        ensures
            r == (*self == Location::spec_empty()),
    {
        self.archetype == usize::MAX && self.row == usize::MAX
    }
}

/// What the table records for one slot: its current generation, where the
/// entity in it is stored, and whether the slot is in use.
#[derive(Debug, Clone, Copy, PartialEq, Eq, Hash, Structural)]
pub struct EntityMeta {
    pub generation: usize,
    pub location: Location,
    pub live: bool,
}

/// The entity table: one record per slot ever handed out, and the list of
/// slots that are free to be handed out again.
#[derive(Debug)]
pub struct Entities {
    metas: Vec<EntityMeta>,
    free: Vec<usize>,
}

impl Entities {
    /// The records of all slots.
    pub closed spec fn metas(&self) -> Seq<EntityMeta> {
        self.metas@
    }

    /// The slots that wait for reuse, the next one to be reused last.
    pub closed spec fn free_list(&self) -> Seq<usize> {
        self.free@
    }

    /// The representation invariant: the free list names existing slots,
    /// names none twice, and holds exactly the slots that are not in use.
    pub open spec fn wf(&self) -> bool {
        &&& self.free_list().no_duplicates()
        &&& forall|k: int|
            0 <= k < self.free_list().len() ==> (#[trigger] self.free_list()[k])
                < self.metas().len()
        &&& forall|i: usize|
            i < self.metas().len() ==> ((#[trigger] self.metas()[i as int]).live
                <==> !self.free_list().contains(i))
    }

    /// A handle is alive when its slot exists and is in use, and the slot
    /// still has the generation of the handle.
    pub open spec fn alive(&self, entity: Entity) -> bool {
        &&& entity.index < self.metas().len()
        &&& self.metas()[entity.index as int].live
        &&& self.metas()[entity.index as int].generation == entity.generation
    }

    /// Where the entity is stored. Meaningful for handles that are alive.
    pub open spec fn location(&self, entity: Entity) -> Location {
        self.metas()[entity.index as int].location
    }

    /// A handle is alive exactly when its slot has its generation and is not
    /// on the free list.
    pub proof fn lemma_alive_iff_not_free(&self, entity: Entity)
        requires
            self.wf(),
        ensures
            self.alive(entity) <==> (entity.index < self.metas().len()
                && self.metas()[entity.index as int].generation
                == entity.generation && !self.free_list().contains(entity.index)),
    {
    }

    /// Every slot is either in use or on the free list, never both.
    pub proof fn lemma_slots_partition(&self, index: usize)
        requires
            self.wf(),
            index < self.metas().len(),
        ensures
            self.metas()[index as int].live != self.free_list().contains(index),
    {
    }

    /// An empty table.
    pub fn new() -> (r: Self)
        ensures
            r.wf(),
            r.metas().len() == 0,
            r.free_list().len() == 0,
    {
        Self { metas: Vec::new(), free: Vec::new() }
    }

    /// Hands out an entity without components. The slot that was freed last
    /// is reused if there is one, with the generation it was left with;
    /// otherwise a new slot is added with generation zero.
    pub fn create(&mut self) -> (entity: Entity)
        requires
            old(self).wf(),
        ensures
            final(self).wf(),
            final(self).alive(entity),
            !old(self).alive(entity),
            final(self).location(entity) == Location::spec_empty(),
            old(self).free_list().len() > 0 ==> {
                &&& entity.index == old(self).free_list().last()
                &&& entity.generation == old(self).metas()[entity.index as int].generation
                &&& final(self).free_list() == old(self).free_list().drop_last()
                &&& final(self).metas() == old(self).metas().update(
                    entity.index as int,
                    (EntityMeta {
                        generation: entity.generation,
                        location: Location::spec_empty(),
                        live: true,
                    }),
                )
            },
            old(self).free_list().len() == 0 ==> {
                &&& entity.index == old(self).metas().len()
                &&& entity.generation == 0
                &&& final(self).free_list() == old(self).free_list()
                &&& final(self).metas() == old(self).metas().push(
                    (EntityMeta { generation: 0, location: Location::spec_empty(), live: true }),
                )
            },
    {
        if !self.free.is_empty() {
            let slot: usize = self.free.pop().unwrap();
            let generation: usize = self.metas[slot].generation;
            self.metas[slot] = EntityMeta { generation, location: Location::empty(), live: true };
            proof {
                let before = old(self).free_list();
                let after = self.free_list();
                assert(before[before.len() - 1] == slot);
                assert(after =~= before.drop_last());
                assert forall|i: usize| i < self.metas().len() implies ((
                #[trigger] self.metas()[i as int]).live <==> !after.contains(i)) by {
                    if i == slot {
                        if after.contains(slot) {
                            let k = choose|k: int| 0 <= k < after.len() && after[k] == slot;
                            assert(before[k] == slot);
                        }
                    } else {
                        assert(self.metas()[i as int] == old(self).metas()[i as int]);
                        if before.contains(i) {
                            let k = choose|k: int| 0 <= k < before.len() && before[k] == i;
                            assert(after[k] == i);
                        }
                        if after.contains(i) {
                            let k = choose|k: int| 0 <= k < after.len() && after[k] == i;
                            assert(before[k] == i);
                        }
                    }
                }
            }
            return Entity { index: slot, generation };
        }
        self.metas.push(EntityMeta { generation: 0, location: Location::empty(), live: true });
        proof {
            assert forall|i: usize| i < self.metas().len() implies ((
            #[trigger] self.metas()[i as int]).live <==> !self.free_list().contains(i)) by {
                if i < old(self).metas().len() {
                    assert(self.metas()[i as int] == old(self).metas()[i as int]);
                }
            }
        }
        Entity { index: self.metas.len() - 1, generation: 0 }
    }

    /// Tells whether the handle is alive.
    pub fn is_alive(&self, entity: Entity) -> (r: bool)
        ensures
            r == self.alive(entity),
    {
        if entity.index >= self.metas.len() {
            return false;
        }
        let meta = &self.metas[entity.index];
        meta.live && meta.generation == entity.generation
    }

    /// Number of slots ever handed out.
    pub fn len(&self) -> (r: usize)
        ensures
            r == self.metas().len(),
    {
        self.metas.len()
    }

    /// The record of a slot.
    pub fn meta(&self, index: usize) -> (r: EntityMeta)
        requires
            index < self.metas().len(),
        ensures
            r == self.metas()[index as int],
    {
        self.metas[index]
    }

    /// Records a new location for the entity in a slot.
    pub fn set_location(&mut self, index: usize, location: Location)
        requires
            index < old(self).metas().len(),
        ensures
            final(self).free_list() == old(self).free_list(),
            final(self).metas() == old(self).metas().update(
                index as int,
                (EntityMeta { location, ..old(self).metas()[index as int] }),
            ),
    {
        let meta = self.metas[index];
        self.metas[index] = EntityMeta { location, ..meta };
    }

    /// Retires the entity in a slot: the generation of the slot goes up by
    /// one, which invalidates every handle issued for it so far, and the slot
    /// joins the free list.
    pub fn release(&mut self, index: usize)
        requires
            old(self).wf(),
            index < old(self).metas().len(),
            old(self).metas()[index as int].live,
            old(self).metas()[index as int].generation < usize::MAX,
        ensures
            final(self).wf(),
            final(self).free_list() == old(self).free_list().push(index),
            final(self).metas() == old(self).metas().update(
                index as int,
                (EntityMeta {
                    generation: (old(self).metas()[index as int].generation + 1) as usize,
                    location: Location::spec_empty(),
                    live: false,
                }),
            ),
    {
        let meta = self.metas[index];
        self.metas[index] = EntityMeta {
            generation: meta.generation + 1,
            location: Location::empty(),
            live: false,
        };
        self.free.push(index);
        proof {
            let before = old(self).free_list();
            let after = self.free_list();
            assert(after[after.len() - 1] == index);
            assert forall|i: usize| i < self.metas().len() implies ((
            #[trigger] self.metas()[i as int]).live <==> !after.contains(i)) by {
                if i != index {
                    assert(self.metas()[i as int] == old(self).metas()[i as int]);
                    if before.contains(i) {
                        let k = choose|k: int| 0 <= k < before.len() && before[k] == i;
                        assert(after[k] == i);
                    }
                    if after.contains(i) {
                        let k = choose|k: int| 0 <= k < after.len() && after[k] == i;
                        assert(before[k] == i);
                    }
                }
            }
            assert forall|a: int, b: int| 0 <= a < after.len() && 0 <= b < after.len() && a
                != b implies after[a] != after[b] by {
                if a < before.len() && b < before.len() {
                } else if a < before.len() {
                    assert(before.contains(before[a]));
                } else if b < before.len() {
                    assert(before.contains(before[b]));
                }
            }
        }
    }
}

} // verus!
