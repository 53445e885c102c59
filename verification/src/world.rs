//! The world: entities, archetypes and the registry of component types, and
//! the operations that keep them consistent.

use vstd::prelude::*;
use std::collections::HashMap;
use crate::archetype::Archetype;
use crate::blob_data::TypeInfo;
use crate::bundle::Bundle;
use crate::cache::{CacheEntry, QueryCache};
use crate::component::{Component, ComponentId};
use crate::entities::{Entities, Entity, EntityMeta, Location};
use crate::query::{Filter, QueryItem, QueryIter};

verus! {

/// What the world records for a registered component type: the position of
/// its bit in the bitmasks, and its layout.
#[derive(Clone, Copy, Debug, PartialEq, Eq, Structural)]
pub struct Registration {
    pub position: u8,
    pub info: TypeInfo,
}

/// The store of all entities and their components.
pub struct World {
    bitmap: HashMap<ComponentId, Registration>,
    kinds: Vec<ComponentId>,
    archetype_map: HashMap<u64, usize>,
    archetypes: Vec<Archetype>,
    cache: QueryCache,
    entities: Entities,
    next_bitmask: u8,
}

/// The bitmask of every archetype of a sequence.
pub open spec fn masks_of(archetypes: Seq<Archetype>) -> Seq<u64> {
    Seq::new(archetypes.len(), |i: int| archetypes[i].mask())
}

/// The number of rows of every archetype of a sequence.
pub open spec fn counts_of(archetypes: Seq<Archetype>) -> Seq<nat> {
    Seq::new(archetypes.len(), |i: int| archetypes[i].rows().len())
}

// What a world holds, as seen by contracts.
impl World {
    /// The registered component types.
    pub closed spec fn registry(&self) -> Map<ComponentId, Registration> {
        self.bitmap@
    }

    /// Number of registered component types.
    pub closed spec fn type_count(&self) -> nat {
        self.next_bitmask as nat
    }

    /// The registered component types, each at the position of its bit.
    pub closed spec fn type_ids(&self) -> Seq<ComponentId> {
        self.kinds@
    }

    /// The archetypes, in the order of their creation.
    pub closed spec fn archetypes(&self) -> Seq<Archetype> {
        self.archetypes@
    }

    /// The index of the archetype of each bitmask.
    pub closed spec fn index(&self) -> Map<u64, usize> {
        self.archetype_map@
    }

    /// The entity table.
    pub closed spec fn entity_table(&self) -> Entities {
        self.entities
    }

    /// The cached match lists of the queries made so far.
    pub closed spec fn cache_entries(&self) -> Map<(u64, u64), CacheEntry> {
        self.cache.entries()
    }

    /// Tells whether the component type is registered.
    pub open spec fn registered(&self, id: ComponentId) -> bool {
        self.registry().contains_key(id)
    }

    /// The bit of a registered component type.
    pub open spec fn bit(&self, id: ComponentId) -> u64 {
        crate::bits::bit(self.registry()[id].position)
    }

    /// The layout of a registered component type.
    pub open spec fn info(&self, id: ComponentId) -> TypeInfo {
        self.registry()[id].info
    }

    /// Tells whether the handle is alive.
    pub open spec fn alive(&self, entity: Entity) -> bool {
        self.entity_table().alive(entity)
    }

    /// Where the entity is stored.
    pub open spec fn location(&self, entity: Entity) -> Location {
        self.entity_table().location(entity)
    }

    /// Tells whether the handle is alive and the entity has a row in some
    /// archetype.
    pub open spec fn placed(&self, entity: Entity) -> bool {
        self.alive(entity) && self.location(entity) != Location::spec_empty()
    }

    /// The components of an entity, by component type: the values in its
    /// row. An entity without a row, and a handle that is not alive, have
    /// none.
    pub open spec fn components(&self, entity: Entity) -> Map<ComponentId, Seq<u8>> {
        if self.placed(entity) {
            let location = self.location(entity);
            self.archetypes()[location.archetype as int].table().map_values(
                |column: Seq<Seq<u8>>| column[location.row as int],
            )
        } else {
            Map::empty()
        }
    }

    /// The bitmask of the archetype that holds the row of the entity, or no
    /// bit if the entity has no row.
    pub open spec fn entity_mask(&self, entity: Entity) -> u64 {
        if self.placed(entity) {
            self.archetypes()[self.location(entity).archetype as int].mask()
        } else {
            0
        }
    }

    /// The bitmask of every archetype.
    pub open spec fn masks(&self) -> Seq<u64> {
        masks_of(self.archetypes())
    }

    /// The number of rows of every archetype.
    pub open spec fn counts(&self) -> Seq<nat> {
        counts_of(self.archetypes())
    }
}

// The invariant.
impl World {
    /// The registry gives every component type a bit position of its own,
    /// below the number of types, of which there are at most 64, and every
    /// position below that number belongs to a type.
    pub open spec fn registry_wf(&self) -> bool {
        &&& self.type_count() <= 64
        &&& self.type_ids().len() == self.type_count()
        &&& forall|k: int|
            0 <= k < self.type_ids().len() ==> self.registry().contains_key(
                #[trigger] self.type_ids()[k],
            ) && self.registry()[self.type_ids()[k]].position == k
        &&& forall|id: ComponentId| #[trigger]
            self.registry().contains_key(id) ==> self.registry()[id].position < self.type_count()
        &&& forall|a: ComponentId, b: ComponentId|
            #![trigger self.registry().contains_key(a), self.registry().contains_key(b)]
            self.registry().contains_key(a) && self.registry().contains_key(b) && a != b
                ==> self.registry()[a].position != self.registry()[b].position
    }

    /// An archetype of this world is well formed, has one value per row in
    /// every column, uses only bits of registered types, has a column for
    /// exactly the types whose bit is in its bitmask, and stores each type
    /// with its registered layout.
    pub open spec fn archetype_wf(&self, archetype: Archetype) -> bool {
        &&& archetype.wf()
        &&& archetype.balanced()
        &&& crate::bits::below(archetype.mask(), self.type_count())
        &&& forall|id: ComponentId|
            #![trigger archetype.has(id)]
            #![trigger self.registry().contains_key(id)]
            archetype.has(id) <==> (self.registry().contains_key(id) && crate::bits::overlaps(
                archetype.mask(),
                self.bit(id),
            ))
        &&& forall|id: ComponentId| #[trigger]
            archetype.has(id) ==> archetype.layout()[id] == self.info(id)
    }

    /// Every archetype satisfies [`archetype_wf`](World::archetype_wf).
    pub open spec fn archetypes_wf(&self) -> bool {
        &&& self.archetypes().len() <= usize::MAX
        &&& forall|i: int|
            0 <= i < self.archetypes().len() ==> self.archetype_wf(#[trigger] self.archetypes()[i])
    }

    /// The lookup by bitmask finds exactly the archetypes there are; in
    /// particular no two archetypes have the same bitmask.
    pub open spec fn index_wf(&self) -> bool {
        &&& forall|mask: u64| #[trigger]
            self.index().contains_key(mask) ==> self.index()[mask] < self.archetypes().len()
                && self.archetypes()[self.index()[mask] as int].mask() == mask
        &&& forall|i: int|
            0 <= i < self.archetypes().len() ==> self.index().contains_key(
                (#[trigger] self.archetypes()[i]).mask(),
            ) && self.index()[self.archetypes()[i].mask()] == i
    }

    /// Entities and rows point at each other: the row recorded for an entity
    /// holds that entity, and the entity in a row is alive and records that
    /// row.
    pub open spec fn links_wf(&self) -> bool {
        &&& forall|entity: Entity|
            #[trigger] self.entity_table().alive(entity) && self.location(entity)
                != Location::spec_empty() ==> {
                let location = self.location(entity);
                &&& location.archetype < self.archetypes().len()
                &&& location.row < self.archetypes()[location.archetype as int].rows().len()
                &&& self.archetypes()[location.archetype as int].rows()[location.row as int]
                    == entity
            }
        &&& forall|i: int, row: int|
            0 <= i < self.archetypes().len() && 0 <= row < self.archetypes()[i].rows().len() ==> {
                let entity = #[trigger] self.archetypes()[i].rows()[row];
                &&& self.entity_table().alive(entity)
                &&& self.location(entity).archetype == i
                &&& self.location(entity).row == row
            }
    }

    /// Every cached match list is right for the archetypes it has examined.
    pub open spec fn cache_wf(&self) -> bool {
        forall|key: (u64, u64)| #[trigger]
            self.cache_entries().contains_key(key) ==> self.cache_entries()[key].valid_for(
                self.masks(),
                key.0,
                key.1,
            )
    }

    /// The invariant of the world. Every operation keeps it.
    pub open spec fn wf(&self) -> bool {
        &&& self.entity_table().wf()
        &&& self.registry_wf()
        &&& self.archetypes_wf()
        &&& self.index_wf()
        &&& self.links_wf()
        &&& self.cache_wf()
    }
}

// How the world after an operation relates to the world before.
impl World {
    /// Archetypes and registered types are only ever added: those of
    /// `before` are still there, with the same bitmasks, bits and layouts.
    pub open spec fn extends(&self, before: &World) -> bool {
        &&& self.archetypes().len() >= before.archetypes().len()
        &&& forall|i: int|
            0 <= i < before.archetypes().len() ==> (#[trigger] self.archetypes()[i]).mask()
                == before.archetypes()[i].mask() && self.archetypes()[i].table().dom()
                == before.archetypes()[i].table().dom()
        &&& self.type_count() >= before.type_count()
        &&& forall|id: ComponentId| #[trigger]
            before.registry().contains_key(id) ==> self.registry().contains_key(id)
                && self.registry()[id] == before.registry()[id]
    }

    /// The borrows outstanding on the columns of the archetypes of `before`
    /// are as they were, and nothing is borrowed in archetypes that were
    /// added since.
    pub open spec fn borrows_kept(&self, before: &World) -> bool {
        &&& self.archetypes().len() >= before.archetypes().len()
        &&& forall|i: int|
            0 <= i < before.archetypes().len() ==> (#[trigger] self.archetypes()[i]).borrows()
                == before.archetypes()[i].borrows()
        &&& forall|i: int, id: ComponentId|
            before.archetypes().len() <= i < self.archetypes().len() && self.archetypes()[i].has(
                id,
            ) ==> #[trigger] self.archetypes()[i].borrows()[id]
                == crate::borrow::BorrowCounter::spec_new()
    }

    /// Every handle other than `entity` is as alive as in `before` and has
    /// the same components.
    pub open spec fn others_kept(&self, before: &World, entity: Entity) -> bool {
        forall|other: Entity|
            #![trigger self.alive(other)]
            #![trigger self.components(other)]
            other != entity ==> self.alive(other) == before.alive(other) && self.components(other)
                == before.components(other)
    }

    /// Where a new row goes whose entity has the component types of the
    /// bitmask: to the end of the archetype of that bitmask, or to the first
    /// row of a new archetype at the end if there is none yet.
    pub open spec fn arrival(&self, mask: u64) -> Location {
        if self.index().contains_key(mask) {
            Location {
                archetype: self.index()[mask],
                row: self.archetypes()[self.index()[mask] as int].rows().len() as usize,
            }
        } else {
            Location { archetype: self.archetypes().len() as usize, row: 0 }
        }
    }

    /// Where `other` is stored once the row of `entity` is removed: the
    /// entity of the last row of that archetype moves into the gap, all
    /// others stay.
    pub open spec fn after_leaving(&self, entity: Entity, other: Entity) -> Location {
        let from = self.location(entity);
        if self.placed(entity) && self.location(other).archetype == from.archetype
            && self.location(other).row + 1
            == self.archetypes()[from.archetype as int].rows().len() {
            from
        } else {
            self.location(other)
        }
    }

    /// The row of `entity`, if it had one, was removed as
    /// [`after_leaving`](World::after_leaving) says, and nothing else has
    /// changed in where entities are stored.
    pub open spec fn left(&self, before: &World, entity: Entity) -> bool {
        &&& self.archetypes().len() == before.archetypes().len()
        &&& forall|other: Entity|
            #![trigger self.location(other)]
            other != entity && before.alive(other) ==> self.location(other)
                == before.after_leaving(entity, other)
        &&& forall|i: int|
            0 <= i < self.archetypes().len() ==> #[trigger] self.counts()[i] == before.counts()[i]
                - (if before.placed(entity) && i == before.location(entity).archetype {
                1nat
            } else {
                0
            })
    }

    /// The row of `entity`, if it had one, was removed, and the entity got a
    /// new row where [`arrival`](World::arrival) says, in the archetype of
    /// the given bitmask.
    pub open spec fn relocated(&self, before: &World, entity: Entity, mask: u64) -> bool {
        let to = before.arrival(mask);
        &&& self.location(entity) == to
        &&& self.archetypes().len() == if before.index().contains_key(mask) {
            before.archetypes().len()
        } else {
            before.archetypes().len() + 1
        }
        &&& self.archetypes()[to.archetype as int].mask() == mask
        &&& forall|other: Entity|
            #![trigger self.location(other)]
            other != entity && before.alive(other) ==> self.location(other)
                == before.after_leaving(entity, other)
        &&& forall|i: int|
            0 <= i < self.archetypes().len() ==> #[trigger] self.counts()[i] == (if i
                < before.archetypes().len() {
                before.counts()[i]
            } else {
                0
            }) - (if before.placed(entity) && i == before.location(entity).archetype {
                1nat
            } else {
                0
            }) + (if i == to.archetype {
                1nat
            } else {
                0
            })
    }

    /// The two worlds have the same archetypes with the same rows, columns
    /// and borrows; they differ at most in the values stored.
    pub open spec fn same_shape(&self, before: &World) -> bool {
        &&& self.entity_table() == before.entity_table()
        &&& self.archetypes().len() == before.archetypes().len()
        &&& forall|i: int|
            0 <= i < self.archetypes().len() ==> {
                &&& (#[trigger] self.archetypes()[i]).rows() == before.archetypes()[i].rows()
                &&& self.archetypes()[i].table().dom() == before.archetypes()[i].table().dom()
                &&& self.archetypes()[i].borrows() == before.archetypes()[i].borrows()
                &&& self.archetypes()[i].layout() == before.archetypes()[i].layout()
                &&& self.archetypes()[i].mask() == before.archetypes()[i].mask()
            }
    }

    /// The two worlds differ at most in the borrows outstanding on columns:
    /// they have the same entities, rows, values, registry and cache.
    pub open spec fn same_store(&self, before: &World) -> bool {
        &&& self.entity_table() == before.entity_table()
        &&& self.registry() == before.registry()
        &&& self.type_count() == before.type_count()
        &&& self.type_ids() == before.type_ids()
        &&& self.index() == before.index()
        &&& self.cache_entries() == before.cache_entries()
        &&& self.archetypes().len() == before.archetypes().len()
        &&& forall|i: int|
            0 <= i < self.archetypes().len() ==> (#[trigger] self.archetypes()[i]).same_rows(
                &before.archetypes()[i],
            )
    }

    /// The bundle holds exactly the component types whose bit is in the
    /// bitmask, each with its registered layout, and the bitmask uses bits
    /// of registered types only.
    pub open spec fn bundle_matches(&self, bundle: &Bundle, mask: u64) -> bool {
        &&& crate::bits::below(mask, self.type_count())
        &&& forall|id: ComponentId|
            #![trigger bundle.has(id)]
            #![trigger self.registry().contains_key(id)]
            bundle.has(id) <==> (self.registry().contains_key(id) && crate::bits::overlaps(
                mask,
                self.bit(id),
            ))
        &&& forall|id: ComponentId| #[trigger] bundle.has(id) ==> bundle.infos()[id]
            == self.info(id)
    }

    /// The component types of the bundle that are registered have the
    /// layout that the bundle gives for them.
    pub open spec fn agrees(&self, bundle: &Bundle) -> bool {
        forall|id: ComponentId|
            #![trigger bundle.has(id)]
            bundle.has(id) && self.registry().contains_key(id) ==> self.info(id)
                == bundle.infos()[id]
    }

    /// The world can take the bundle: registering its new component types
    /// does not exceed 64 types, and the types that are registered already
    /// have the layout that the bundle gives for them.
    pub open spec fn accepts(&self, bundle: &Bundle) -> bool {
        &&& self.type_count() + crate::bundle::new_types(bundle.ids(), self.registry()).len()
            <= 64
        &&& self.agrees(bundle)
    }

    /// What holds after an entity was spawned from a bundle whose component
    /// types make up the given bitmask: the handle is new and alive, the
    /// entity has exactly the components of the bundle, in a new row of the
    /// archetype of the bitmask, and no other entity has changed. The slot
    /// freed last is reused, otherwise a new slot is taken.
    pub open spec fn spawned(
        &self,
        before: &World,
        entity: Entity,
        values: Map<ComponentId, Seq<u8>>,
        mask: u64,
    ) -> bool {
        &&& self.alive(entity)
        &&& !before.alive(entity)
        &&& self.placed(entity)
        &&& self.components(entity) == values
        &&& self.others_kept(before, entity)
        &&& self.relocated(before, entity, mask)
        &&& self.cache_entries() == before.cache_entries()
        &&& entity.index == if before.entity_table().free_list().len() > 0 {
            before.entity_table().free_list().last()
        } else {
            before.entity_table().metas().len() as usize
        }
        &&& entity.generation == if before.entity_table().free_list().len() > 0 {
            before.entity_table().metas()[entity.index as int].generation
        } else {
            0
        }
        &&& self.entity_table().free_list() == if before.entity_table().free_list().len() > 0 {
            before.entity_table().free_list().drop_last()
        } else {
            before.entity_table().free_list()
        }
    }

    /// What holds after a component was inserted into a live entity: the
    /// entity has the value under the type of the component, in place of the
    /// one it may have had, and its other components are as before; no other
    /// entity has changed; the type is registered. If the entity had a
    /// component of the type, nothing has moved; otherwise the entity has
    /// moved to the archetype that has the bit of the type in addition.
    pub open spec fn inserted(
        &self,
        before: &World,
        entity: Entity,
        id: ComponentId,
        bytes: Seq<u8>,
    ) -> bool {
        &&& self.alive(entity)
        &&& self.placed(entity)
        &&& self.components(entity) == before.components(entity).insert(id, bytes)
        &&& self.others_kept(before, entity)
        &&& self.registry().contains_key(id)
        &&& self.cache_entries() == before.cache_entries()
        &&& self.entity_table().free_list() == before.entity_table().free_list()
        &&& if before.components(entity).contains_key(id) {
            self.same_shape(before)
        } else {
            self.relocated(before, entity, before.entity_mask(entity) | self.bit(id))
        }
    }

    /// What holds after a component was removed from an entity that had it:
    /// the entity is without a component of that type, and its other
    /// components are as before; no other entity has changed. The entity has
    /// moved to the archetype without the bit of the type, or has no row any
    /// more if no bit is left.
    pub open spec fn removed(&self, before: &World, entity: Entity, id: ComponentId) -> bool {
        &&& self.alive(entity)
        &&& self.components(entity) == before.components(entity).remove(id)
        &&& self.others_kept(before, entity)
        &&& self.registry() == before.registry()
        &&& self.type_count() == before.type_count()
        &&& self.type_ids() == before.type_ids()
        &&& self.cache_entries() == before.cache_entries()
        &&& self.entity_table().free_list() == before.entity_table().free_list()
        &&& if (before.entity_mask(entity) & !before.bit(id)) == 0 {
            self.location(entity) == Location::spec_empty() && self.left(before, entity)
        } else {
            self.relocated(before, entity, before.entity_mask(entity) & !before.bit(id))
        }
    }

    /// What holds after a live entity was despawned: its handle is dead, its
    /// slot has the next generation and is the one to be reused next, its row
    /// is gone from the archetype it was in, and no other entity has changed.
    pub open spec fn despawned(&self, before: &World, entity: Entity) -> bool {
        &&& !self.alive(entity)
        &&& self.others_kept(before, entity)
        &&& self.left(before, entity)
        &&& self.registry() == before.registry()
        &&& self.type_count() == before.type_count()
        &&& self.type_ids() == before.type_ids()
        &&& self.cache_entries() == before.cache_entries()
        &&& self.entity_table().free_list() == before.entity_table().free_list().push(
            entity.index,
        )
        &&& self.entity_table().metas().len() == before.entity_table().metas().len()
        &&& self.entity_table().metas()[entity.index as int].generation == entity.generation + 1
    }

    /// What holds after a query was made: nothing but the cache has changed,
    /// and the cache has an entry for the query that has examined every
    /// archetype.
    pub open spec fn queried(&self, before: &World, required: u64, excluded: u64) -> bool {
        &&& self.archetypes() == before.archetypes()
        &&& self.entity_table() == before.entity_table()
        &&& self.registry() == before.registry()
        &&& self.type_count() == before.type_count()
        &&& self.type_ids() == before.type_ids()
        &&& self.index() == before.index()
        &&& self.cache_entries().dom() == before.cache_entries().dom().insert((required, excluded))
        &&& forall|key: (u64, u64)|
            key != (required, excluded) && before.cache_entries().contains_key(key)
                ==> #[trigger] self.cache_entries()[key] == before.cache_entries()[key]
        &&& self.cache_entries()[(required, excluded)].high_water_mark == self.archetypes().len()
    }
}

// Construction, registration and lookups.
impl World {
    /// A world without entities, archetypes or registered types.
    #[must_use]
    pub fn new() -> (r: Self)
        ensures
            r.wf(),
            r.type_count() == 0,
            r.archetypes().len() == 0,
            r.registry() == Map::<ComponentId, Registration>::empty(),
            r.cache_entries() == Map::<(u64, u64), CacheEntry>::empty(),
            r.index() == Map::<u64, usize>::empty(),
            r.type_ids().len() == 0,
            r.entity_table().metas().len() == 0,
            r.entity_table().free_list().len() == 0,
            forall|entity: Entity| !r.alive(entity),
    {
        Self {
            bitmap: HashMap::new(),
            kinds: Vec::new(),
            archetype_map: HashMap::new(),
            archetypes: Vec::new(),
            cache: QueryCache::new(),
            entities: Entities::new(),
            next_bitmask: 0,
        }
    }

    /// Tells whether a component type can be registered: it is registered
    /// already, or fewer than 64 types are.
    pub fn can_register(&self, id: ComponentId) -> (r: bool)
        ensures
            r == (self.registered(id) || self.type_count() < 64),
    {
        broadcast use vstd::std_specs::hash::group_hash_axioms;

        self.bitmap.contains_key(&id) || self.next_bitmask < 64
    }

    /// Registers a component type and returns its bit. The type gets the
    /// lowest bit not yet given out, and the layout is recorded for it. A
    /// type that is registered already keeps its bit and its layout.
    pub fn register_component(&mut self, id: ComponentId, info: TypeInfo) -> (bit: u64)
        requires
            old(self).wf(),
            old(self).registered(id) || old(self).type_count() < 64,
        ensures
            final(self).wf(),
            final(self).extends(old(self)),
            final(self).borrows_kept(old(self)),
            final(self).archetypes() == old(self).archetypes(),
            final(self).index() == old(self).index(),
            final(self).entity_table() == old(self).entity_table(),
            final(self).cache_entries() == old(self).cache_entries(),
            final(self).registered(id),
            bit == final(self).bit(id),
            old(self).registered(id) ==> final(self).registry() == old(self).registry()
                && final(self).type_count() == old(self).type_count() && final(self).type_ids()
                == old(self).type_ids(),
            !old(self).registered(id) ==> final(self).registry() == old(self).registry().insert(
                id,
                (Registration { position: old(self).type_count() as u8, info }),
            ) && final(self).type_count() == old(self).type_count() + 1 && final(self).type_ids()
                == old(self).type_ids().push(id),
    {
        broadcast use vstd::std_specs::hash::group_hash_axioms;

        match self.bitmap.get(&id) {
            Some(registration) => {
                assert(self.registry().contains_key(id));
                assert(registration.position < 64);
                return 1u64 << registration.position;
            },
            None => {},
        }
        let position: u8 = self.next_bitmask;
        let bit: u64 = 1u64 << position;
        self.bitmap.insert(id, Registration { position, info });
        self.kinds.push(id);
        self.next_bitmask = self.next_bitmask + 1;
        proof {
            assert(self.index() == old(self).index());
            assert(self.archetypes() == old(self).archetypes());
            assert(old(self).index_wf());
            assert(self.index_wf());
            assert(old(self).cache_wf());
            assert(self.cache_entries() == old(self).cache_entries());
            assert(self.masks() == old(self).masks());
            assert(self.cache_wf());
            assert(old(self).links_wf());
            assert(self.links_wf());
            assert forall|i: int| 0 <= i < self.archetypes().len() implies self.archetype_wf(
                #[trigger] self.archetypes()[i],
            ) by {
                let archetype = self.archetypes()[i];
                assert(old(self).archetype_wf(old(self).archetypes()[i]));
                assert(!crate::bits::overlaps(archetype.mask(), crate::bits::bit(position)));
                assert forall|k: ComponentId|
                    #![trigger archetype.has(k)]
                    #![trigger self.registry().contains_key(k)]
                    archetype.has(k) <==> (self.registry().contains_key(k)
                        && crate::bits::overlaps(archetype.mask(), self.bit(k))) by {
                    if k != id {
                        assert(self.registry().contains_key(k) == old(self).registry().contains_key(
                            k,
                        ));
                    } else {
                        assert(!old(self).registry().contains_key(k));
                    }
                }
                assert forall|k: ComponentId| #[trigger] archetype.has(k)
                    implies archetype.layout()[k]
                    == self.info(k) by {
                    assert(old(self).registry().contains_key(k));
                }
            }
            assert forall|a: ComponentId, b: ComponentId|
                #![trigger self.registry().contains_key(a), self.registry().contains_key(b)]
                self.registry().contains_key(a) && self.registry().contains_key(b) && a
                    != b implies self.registry()[a].position != self.registry()[b].position by {
                if a != id {
                    assert(old(self).registry().contains_key(a));
                }
                if b != id {
                    assert(old(self).registry().contains_key(b));
                }
            }
            assert forall|k: ComponentId| #[trigger]
                self.registry().contains_key(k) implies self.registry()[k].position
                < self.type_count() by {
                if k != id {
                    assert(old(self).registry().contains_key(k));
                }
            }
            assert forall|k: int| 0 <= k < self.type_ids().len()
                implies self.registry().contains_key(
                #[trigger] self.type_ids()[k],
            ) && self.registry()[self.type_ids()[k]].position == k by {
                if k < old(self).type_ids().len() {
                    assert(self.type_ids()[k] == old(self).type_ids()[k]);
                    assert(old(self).registry().contains_key(old(self).type_ids()[k]));
                }
            }
        }
        bit
    }

    /// The bit of a component type, if it is registered.
    #[must_use]
    pub fn bit_of(&self, id: ComponentId) -> (r: Option<u64>)
        requires
            self.wf(),
        ensures
            r.is_some() == self.registered(id),
            r matches Some(bit) ==> bit == self.bit(id),
    {
        broadcast use vstd::std_specs::hash::group_hash_axioms;

        match self.bitmap.get(&id) {
            Some(registration) => {
                assert(self.registered(id));
                Some(1u64 << registration.position)
            },
            None => None,
        }
    }

    /// The layout of a component type, if it is registered.
    #[must_use]
    pub fn type_info(&self, id: ComponentId) -> (r: Option<TypeInfo>)
        ensures
            r.is_some() == self.registered(id),
            r matches Some(info) ==> info == self.info(id),
    {
        broadcast use vstd::std_specs::hash::group_hash_axioms;

        match self.bitmap.get(&id) {
            Some(registration) => Some(registration.info),
            None => None,
        }
    }

    /// The registered component types, each at the position of its bit.
    #[must_use]
    pub fn component_types(&self) -> (r: &Vec<ComponentId>)
        ensures
            r@ == self.type_ids(),
    {
        &self.kinds
    }

    /// Tells whether the handle is alive.
    #[must_use]
    pub fn is_alive(&self, entity: Entity) -> (r: bool)
        ensures
            r == self.alive(entity),
    {
        self.entities.is_alive(entity)
    }

    /// Tells whether the entity has no row: it has no components, or the
    /// handle is not alive.
    #[must_use]
    pub fn is_empty(&self, entity: Entity) -> (r: bool)
        ensures
            r == !self.placed(entity),
    {
        if !self.entities.is_alive(entity) {
            return true;
        }
        self.entities.meta(entity.index).location.is_empty()
    }

    /// Where the entity is stored, if the handle is alive.
    #[must_use]
    pub fn location_of(&self, entity: Entity) -> (r: Option<Location>)
        ensures
            r.is_some() == self.alive(entity),
            r matches Some(location) ==> location == self.location(entity),
    {
        if !self.entities.is_alive(entity) {
            return None;
        }
        Some(self.entities.meta(entity.index).location)
    }

    /// The archetype that holds the row of the entity, if it has one.
    #[must_use]
    pub fn archetype_of(&self, entity: Entity) -> (r: Option<&Archetype>)
        requires
            self.wf(),
        ensures
            r.is_some() == self.placed(entity),
            r matches Some(archetype) ==> *archetype
                == self.archetypes()[self.location(entity).archetype as int],
    {
        if self.is_empty(entity) {
            return None;
        }
        let location = self.entities.meta(entity.index).location;
        Some(&self.archetypes[location.archetype])
    }

    /// Number of archetypes.
    #[must_use]
    pub fn archetype_count(&self) -> (r: usize)
        ensures
            r == self.archetypes().len(),
    {
        self.archetypes.len()
    }

    /// The archetype at an index.
    #[must_use]
    pub fn archetype(&self, index: usize) -> (r: &Archetype)
        requires
            index < self.archetypes().len(),
        ensures
            *r == self.archetypes()[index as int],
    {
        &self.archetypes[index]
    }

    /// Tells whether the entity has a component of the given type.
    #[must_use]
    pub fn has_component(&self, entity: Entity, id: ComponentId) -> (r: bool)
        requires
            self.wf(),
        ensures
            r == self.components(entity).contains_key(id),
    {
        let archetype = match self.archetype_of(entity) {
            Some(archetype) => archetype,
            None => {
                return false;
            },
        };
        let bit = match self.bit_of(id) {
            Some(bit) => bit,
            None => {
                proof {
                    assert(self.archetype_wf(*archetype));
                    assert(!archetype.has(id));
                }
                return false;
            },
        };
        proof {
            assert(self.archetype_wf(*archetype));
        }
        archetype.bitmask() & bit != 0
    }

    /// The component of the given type of the entity, if it has one.
    #[must_use]
    pub fn get_component(&self, entity: Entity, id: ComponentId) -> (r: Option<&[u8]>)
        requires
            self.wf(),
        ensures
            r.is_some() == self.components(entity).contains_key(id),
            r matches Some(bytes) ==> bytes@ == self.components(entity)[id],
    {
        if !self.is_alive(entity) {
            return None;
        }
        let location = self.entities.meta(entity.index).location;
        if location.archetype >= self.archetypes.len() {
            return None;
        }
        let archetype = &self.archetypes[location.archetype];
        proof {
            assert(self.placed(entity));
            assert(self.archetype_wf(*archetype));
            if archetype.has(id) {
                assert(archetype.table()[id].len() == archetype.rows().len());
            }
        }
        archetype.get_bytes(id, location.row)
    }
}

// Entities and their components.
impl World {
    /// Hands out an entity without components.
    pub fn spawn_empty(&mut self) -> (entity: Entity)
        requires
            old(self).wf(),
        ensures
            final(self).wf(),
            final(self).alive(entity),
            !old(self).alive(entity),
            final(self).location(entity) == Location::spec_empty(),
            final(self).components(entity) == Map::<ComponentId, Seq<u8>>::empty(),
            final(self).others_kept(old(self), entity),
            final(self).left(old(self), entity),
            final(self).archetypes() == old(self).archetypes(),
            final(self).index() == old(self).index(),
            final(self).registry() == old(self).registry(),
            final(self).type_count() == old(self).type_count(),
            final(self).type_ids() == old(self).type_ids(),
            final(self).cache_entries() == old(self).cache_entries(),
            old(self).entity_table().free_list().len() > 0 ==> entity.index
                == old(self).entity_table().free_list().last() && entity.generation
                == old(self).entity_table().metas()[entity.index as int].generation,
            old(self).entity_table().free_list().len() == 0 ==> entity.index
                == old(self).entity_table().metas().len() && entity.generation == 0,
            final(self).entity_table().free_list() == if old(self).entity_table().free_list().len()
                > 0 {
                old(self).entity_table().free_list().drop_last()
            } else {
                old(self).entity_table().free_list()
            },
    {
        let entity = self.entities.create();
        proof {
            self.lemma_created(old(self), entity);
            assert forall|other: Entity|
                #![trigger self.location(other)]
                other != entity && old(self).alive(other) implies self.location(other)
                    == old(self).after_leaving(entity, other) by {
                self.lemma_created_locations(old(self), entity, other);
            }
        }
        entity
    }

    /// Tells whether the world can take the bundle.
    pub fn can_spawn(&self, bundle: &Bundle) -> (r: bool)
        requires
            self.wf(),
            bundle.wf(),
        ensures
            r == self.accepts(bundle),
    {
        let mut fresh: usize = 0;
        let mut agrees: bool = true;
        let mut i: usize = 0;
        while i < bundle.len()
            invariant
                0 <= i <= bundle.items().len(),
                bundle.wf(),
                fresh == crate::bundle::new_types(bundle.ids().take(i as int), self.registry()).len(
                    ),
                fresh <= i,
                agrees == forall|j: int|
                    0 <= j < i && self.registry().contains_key(bundle.items()[j].id) ==> self.info(
                        bundle.items()[j].id,
                    ) == (#[trigger] bundle.items()[j]).info,
            decreases bundle.items().len() - i,
        {
            let component = bundle.item(i);
            proof {
                assert(bundle.ids().take(i + 1).drop_last() =~= bundle.ids().take(i as int));
                assert(bundle.ids().take(i + 1).last() == component.id);
            }
            match self.type_info(component.id) {
                Some(info) => {
                    if info != component.info {
                        agrees = false;
                    }
                },
                None => {
                    fresh = fresh + 1;
                },
            }
            i = i + 1;
        }
        proof {
            assert(bundle.ids().take(bundle.items().len() as int) =~= bundle.ids());
            if agrees {
                assert forall|id: ComponentId|
                    #![trigger bundle.has(id)]
                    bundle.has(id) && self.registry().contains_key(id) implies self.info(id)
                    == bundle.infos()[id] by {
                    bundle.lemma_has(id);
                    let j = bundle.ids().index_of(id);
                    assert(bundle.items()[j].info == bundle.infos()[id]);
                }
            } else {
                let j = choose|j: int|
                    0 <= j < bundle.items().len() && self.registry().contains_key(
                        bundle.items()[j].id,
                    ) && self.info(bundle.items()[j].id) != (#[trigger] bundle.items()[j]).info;
                bundle.lemma_item(j);
                assert(bundle.has(bundle.items()[j].id));
            }
        }
        agrees && fresh <= 64 && self.next_bitmask as usize + fresh <= 64
    }

    /// Spawns an entity with the components of the bundle, registering the
    /// component types that are new to the world.
    pub fn spawn(&mut self, bundle: Bundle) -> (entity: Entity)
        requires
            old(self).wf(),
            bundle.wf(),
            old(self).accepts(&bundle),
        ensures
            final(self).wf(),
            final(self).extends(old(self)),
            final(self).borrows_kept(old(self)),
            final(self).spawned(old(self), entity, bundle.values(), bundle.spec_bitmask(final(
                self))),
            final(self).type_ids() == old(self).type_ids() + crate::bundle::new_types(
                bundle.ids(),
                old(self).registry(),
            ),
            final(self).type_count() == final(self).type_ids().len(),
            forall|id: ComponentId|
                #![trigger final(self).registry().contains_key(id)]
                final(self).registry().contains_key(id) <==> (old(self).registry().contains_key(id)
                    || bundle.has(id)),
            forall|id: ComponentId| #[trigger] bundle.has(id) ==> final(self).info(id)
                == bundle.infos()[id],
    {
        bundle.register(self);
        proof {
            self.lemma_kept(old(self));
        }
        let bitmask = bundle.bitmask(self);
        let ghost mid = *self;
        let entity = self.spawn_inner(bundle, bitmask);
        proof {
            self.lemma_relocated_rebase(&mid, old(self), entity, bitmask);
            assert forall|other: Entity|
                #![trigger self.alive(other)]
                #![trigger self.components(other)]
                other != entity implies self.alive(other) == old(self).alive(other)
                    && self.components(
                other,
            ) == old(self).components(other) by {
                assert(mid.alive(other) == old(self).alive(other));
                assert(mid.components(other) == old(self).components(other));
            }
            assert forall|i: int| 0 <= i < old(self).archetypes().len() implies (
            #[trigger] self.archetypes()[i]).mask() == old(self).archetypes()[i].mask() by {
                assert(self.archetypes()[i].mask() == mid.archetypes()[i].mask());
            }
            assert forall|id: ComponentId| #[trigger]
                old(self).registry().contains_key(id) implies self.registry().contains_key(id)
                && self.registry()[id] == old(self).registry()[id] by {
                assert(mid.registry().contains_key(id));
            }
            assert(mid.counts() =~= old(self).counts());
        }
        entity
    }

    /// Spawns an entity with the components of the bundle, all of whose
    /// component types must be registered.
    pub fn spawn_no_register(&mut self, bundle: Bundle) -> (entity: Entity)
        requires
            old(self).wf(),
            bundle.wf(),
            bundle.all_registered(old(self)),
            old(self).agrees(&bundle),
        ensures
            final(self).wf(),
            final(self).extends(old(self)),
            final(self).borrows_kept(old(self)),
            final(self).spawned(old(self), entity, bundle.values(), bundle.spec_bitmask(final(
                self))),
            final(self).registry() == old(self).registry(),
            final(self).type_count() == old(self).type_count(),
            final(self).type_ids() == old(self).type_ids(),
    {
        let bitmask = bundle.bitmask(self);
        self.spawn_inner(bundle, bitmask)
    }

    /// Hands out an entity and places it, with the components of the bundle,
    /// in the archetype of the given bitmask.
    fn spawn_inner(&mut self, bundle: Bundle, bitmask: u64) -> (entity: Entity)
        requires
            old(self).wf(),
            bundle.wf(),
            bundle.all_registered(old(self)),
            old(self).agrees(&bundle),
            bitmask == bundle.spec_bitmask(old(self)),
        ensures
            final(self).wf(),
            final(self).extends(old(self)),
            final(self).borrows_kept(old(self)),
            final(self).spawned(old(self), entity, bundle.values(), bundle.spec_bitmask(final(
                self))),
            final(self).registry() == old(self).registry(),
            final(self).type_count() == old(self).type_count(),
            final(self).type_ids() == old(self).type_ids(),
    {
        proof {
            bundle.lemma_bitmask(self);
            assert(self.bundle_matches(&bundle, bitmask));
        }
        let entity = self.spawn_empty();
        let ghost mid = *self;
        self.attach(entity, bundle, bitmask);
        proof {
            assert forall|other: Entity|
                #![trigger self.alive(other)]
                #![trigger self.components(other)]
                other != entity implies self.alive(other) == old(self).alive(other)
                    && self.components(
                other,
            ) == old(self).components(other) by {
                assert(mid.alive(other) == old(self).alive(other));
                assert(mid.components(other) == old(self).components(other));
            }
            assert forall|other: Entity|
                #![trigger mid.location(other)]
                other != entity && old(self).alive(other) implies mid.alive(other) && mid.location(
                other,
            ) == old(self).location(other) by {
                assert(mid.alive(other) == old(self).alive(other));
                assert(mid.location(other) == old(self).after_leaving(entity, other));
            }
            self.lemma_relocated_rebase(&mid, old(self), entity, bitmask);
        }
        entity
    }

    /// Gives the entity a component. A component of the same type that the
    /// entity has already is overwritten; otherwise the entity moves to the
    /// archetype that has the additional type. The type is registered if it
    /// is new. Nothing happens when the handle is not alive.
    pub fn insert_component(&mut self, entity: Entity, component: Component)
        requires
            old(self).wf(),
            component.wf(),
            old(self).registry().contains_key(component.id) ==> old(self).info(component.id)
                == component.info,
            old(self).alive(entity) && !old(self).registry().contains_key(component.id)
                ==> old(self).type_count() < 64,
        ensures
            final(self).wf(),
            final(self).extends(old(self)),
            final(self).borrows_kept(old(self)),
            !old(self).alive(entity) ==> *final(self) == *old(self),
            old(self).alive(entity) ==> final(self).inserted(
                old(self),
                entity,
                component.id,
                component.bytes@,
            ) && final(self).info(component.id) == component.info,
            old(self).alive(entity) && !old(self).registered(component.id) ==> final(self).registry() == old(self).registry().insert(
                component.id,
                (Registration { position: old(self).type_count() as u8, info: component.info }),
            ) && final(self).type_ids() == old(self).type_ids().push(component.id),
            old(self).registered(component.id) ==> final(self).registry() == old(self).registry()
                && final(self).type_ids() == old(self).type_ids(),
            final(self).type_count() == final(self).type_ids().len(),
    {
        if !self.is_alive(entity) {
            return ;
        }
        let id = component.id;
        let bit = self.register_component(id, component.info);
        let ghost first = *self;
        proof {
            self.lemma_kept(old(self));
            crate::bits::lemma_bit(self.registry()[id].position, self.registry()[id].position);
        }
        let location = self.entities.meta(entity.index).location;
        if location.is_empty() {
            let ghost values = component.bytes@;
            let mut bundle = Bundle::new();
            bundle.push(component);
            proof {
                self.lemma_single_matches(&bundle, id);
            }
            self.attach(entity, bundle, bit);
            proof {
                assert(self.components(entity) =~= old(self).components(entity).insert(id, values));
                self.lemma_others_chain(&first, old(self), entity);
                self.lemma_extends_chain(&first, old(self));
                crate::bits::lemma_empty(bit);
                assert((0u64 | bit) == bit) by (bit_vector);
                self.lemma_relocated_rebase(&first, old(self), entity, bit);
            }
            return ;
        }
        proof {
            assert(self.entity_table().alive(entity));
            assert(self.archetype_wf(self.archetypes()[location.archetype as int]));
        }
        let mask = self.archetypes[location.archetype].bitmask();
        proof {
            crate::bits::lemma_single(mask, self.registry()[id].position);
        }
        if mask & bit == bit {
            self.overwrite(entity, id, component.bytes.as_slice());
            proof {
                self.lemma_others_chain(&first, old(self), entity);
                self.lemma_extends_chain(&first, old(self));
                assert(self.same_shape(old(self)));
            }
            return ;
        }
        let ghost values = component.bytes@;
        let mut bundle = self.detach(entity, true);
        let ghost second = *self;
        let ghost moved = bundle;
        bundle.push(component);
        proof {
            second.lemma_grown_matches(&moved, &bundle, mask, id);
        }
        self.attach(entity, bundle, mask | bit);
        proof {
            assert(self.components(entity) =~= old(self).components(entity).insert(id, values));
            second.lemma_others_chain(&first, old(self), entity);
            second.lemma_extends_chain(&first, old(self));
            self.lemma_others_chain(&second, old(self), entity);
            self.lemma_extends_chain(&second, old(self));
            assert((mask | bit) != mask) by (bit_vector)
                requires
                    (mask & bit) != bit,
            ;
            assert forall|other: Entity| #![trigger second.alive(other)]
                second.alive(other) == first.alive(other) by {
                if other != entity {
                    assert(second.alive(other) == first.alive(other));
                }
            }
            self.lemma_relocated_chain(&second, &first, entity, mask | bit);
            self.lemma_relocated_rebase(&first, old(self), entity, mask | bit);
        }
    }

    /// Overwrites a component of the entity in place. Tells whether it did:
    /// nothing is written unless the entity has a component of that type and
    /// the value has the size of the type.
    pub fn set_component(&mut self, entity: Entity, id: ComponentId, bytes: &[u8]) -> (ok: bool)
        requires
            old(self).wf(),
        ensures
            final(self).wf(),
            final(self).extends(old(self)),
            final(self).borrows_kept(old(self)),
            ok == (old(self).components(entity).contains_key(id) && bytes@.len() == old(self).info(
                id,
            ).size),
            !ok ==> *final(self) == *old(self),
            ok ==> final(self).inserted(old(self), entity, id, bytes@),
            final(self).same_shape(old(self)),
            final(self).registry() == old(self).registry(),
            final(self).type_count() == old(self).type_count(),
            final(self).type_ids() == old(self).type_ids(),
    {
        if !self.has_component(entity, id) {
            return false;
        }
        proof {
            assert(self.entity_table().alive(entity));
            assert(self.archetype_wf(self.archetypes()[self.location(entity).archetype as int]));
        }
        match self.type_info(id) {
            Some(info) => {
                if bytes.len() != info.size {
                    return false;
                }
            },
            None => {
                return false;
            },
        }
        self.overwrite(entity, id, bytes);
        true
    }

    /// Takes the component of the given type from the entity. The entity
    /// moves to the archetype without that type, or is left without a row if
    /// it was its only component. Nothing happens when the entity has no such
    /// component.
    pub fn remove_component(&mut self, entity: Entity, id: ComponentId)
        requires
            old(self).wf(),
        ensures
            final(self).wf(),
            final(self).extends(old(self)),
            final(self).borrows_kept(old(self)),
            !old(self).components(entity).contains_key(id) ==> *final(self) == *old(self),
            old(self).components(entity).contains_key(id) ==> final(self).removed(
                old(self),
                entity,
                id,
            ),
    {
        if !self.is_alive(entity) || self.is_empty(entity) {
            return ;
        }
        let bit = match self.bit_of(id) {
            Some(bit) => bit,
            None => {
                proof {
                    let archetype = self.archetypes()[self.location(entity).archetype as int];
                    assert(self.entity_table().alive(entity));
                    assert(self.archetype_wf(archetype));
                    assert(!archetype.has(id));
                }
                return ;
            },
        };
        let location = self.entities.meta(entity.index).location;
        proof {
            assert(self.entity_table().alive(entity));
            assert(self.archetype_wf(self.archetypes()[location.archetype as int]));
        }
        let mask = self.archetypes[location.archetype].bitmask();
        proof {
            crate::bits::lemma_single(mask, self.registry()[id].position);
        }
        if mask & bit != bit {
            return ;
        }
        let combined = mask & !bit;
        if combined == 0 {
            proof {
                self.lemma_only_component(entity, id);
            }
            let _dropped = self.detach(entity, false);
            proof {
                assert(self.components(entity) =~= old(self).components(entity).remove(id));
            }
            return ;
        }
        let mut bundle = self.detach(entity, true);
        let ghost second = *self;
        let ghost moved = bundle;
        let _dropped = bundle.remove(id);
        proof {
            second.lemma_shrunk_matches(&moved, &bundle, mask, id);
        }
        self.attach(entity, bundle, combined);
        proof {
            assert(self.components(entity) =~= old(self).components(entity).remove(id));
            self.lemma_others_chain(&second, old(self), entity);
            self.lemma_extends_chain(&second, old(self));
            assert((mask & !bit) != mask) by (bit_vector)
                requires
                    (mask & bit) == bit,
                    bit != 0,
            ;
            assert forall|other: Entity| #![trigger second.alive(other)]
                second.alive(other) == old(self).alive(other) by {
                if other != entity {
                    assert(second.alive(other) == old(self).alive(other));
                }
            }
            self.lemma_relocated_chain(&second, old(self), entity, combined);
        }
    }

    /// Despawns the entity: its components are discarded, every handle to it
    /// becomes invalid, and its slot is free for reuse. Nothing happens when
    /// the handle is not alive.
    pub fn despawn_entity(&mut self, entity: Entity)
        requires
            old(self).wf(),
            old(self).alive(entity) ==> entity.generation < usize::MAX,
        ensures
            final(self).wf(),
            final(self).extends(old(self)),
            final(self).borrows_kept(old(self)),
            !old(self).alive(entity) ==> *final(self) == *old(self),
            old(self).alive(entity) ==> final(self).despawned(old(self), entity),
    {
        if !self.is_alive(entity) {
            return ;
        }
        if !self.is_empty(entity) {
            let _dropped = self.detach(entity, false);
        } else {
            proof {
                assert(self.counts() =~= old(self).counts());
            }
        }
        let ghost mid = *self;
        self.entities.release(entity.index);
        proof {
            let metas = mid.entity_table().metas();
            assert(mid.entity_table().alive(entity));
            assert(mid.location(entity) == Location::spec_empty());
            assert forall|other: Entity| other.index != entity.index implies self.alive(other)
                == mid.alive(other) && (other.index < metas.len() ==> self.location(other)
                == mid.location(other)) by {}
            assert forall|other: Entity|
                #[trigger] self.entity_table().alive(other) && self.location(other)
                    != Location::spec_empty() implies {
                let place = self.location(other);
                &&& place.archetype < self.archetypes().len()
                &&& place.row < self.archetypes()[place.archetype as int].rows().len()
                &&& self.archetypes()[place.archetype as int].rows()[place.row as int] == other
            } by {
                assert(mid.entity_table().alive(other));
            }
            assert forall|i: int, r: int|
                0 <= i < self.archetypes().len() && 0 <= r < self.archetypes()[i].rows().len()
                    implies {
                let other = #[trigger] self.archetypes()[i].rows()[r];
                &&& self.entity_table().alive(other)
                &&& self.location(other).archetype == i
                &&& self.location(other).row == r
            } by {
                let other = mid.archetypes()[i].rows()[r];
                assert(mid.entity_table().alive(other));
                assert(other.index != entity.index);
            }
            assert(mid.registry_wf());
            assert(self.registry() == mid.registry());
            assert(self.type_count() == mid.type_count());
            assert(self.type_ids() == mid.type_ids());
            assert(self.registry_wf());
            assert(mid.index_wf());
            assert(self.index() == mid.index());
            assert(self.archetypes() == mid.archetypes());
            assert(self.index_wf());
            assert(mid.cache_wf());
            assert(self.cache_entries() == mid.cache_entries());
            assert(self.masks() == mid.masks());
            assert(self.cache_wf());
            assert(mid.archetypes_wf());
            assert(self.archetypes_wf());
            assert forall|other: Entity|
                #![trigger self.alive(other)]
                #![trigger self.components(other)]
                other != entity implies self.alive(other) == old(self).alive(other)
                && self.components(other) == old(self).components(other) by {
                assert(mid.alive(other) == old(self).alive(other));
                assert(mid.components(other) == old(self).components(other));
                if other.index == entity.index {
                    assert(!mid.alive(other));
                }
            }
            assert(self.counts() =~= mid.counts());
            assert forall|i: int| 0 <= i < old(self).archetypes().len() implies (
            #[trigger] self.archetypes()[i]).mask() == old(self).archetypes()[i].mask() by {
                assert(mid.archetypes()[i].mask() == old(self).archetypes()[i].mask());
            }
            assert forall|other: Entity|
                #![trigger self.location(other)]
                other != entity && old(self).alive(other) implies self.location(other)
                    == old(self).after_leaving(entity, other) by {
                assert(mid.alive(other) == old(self).alive(other));
                assert(other.index != entity.index);
                assert(self.location(other) == mid.location(other));
                if old(self).placed(entity) {
                    assert(mid.location(other) == old(self).after_leaving(entity, other));
                }
            }
        }
    }
}

// Queries.
impl World {
    /// Starts a walk over the rows of all archetypes that have the columns
    /// that are fetched.
    #[must_use]
    pub fn query<Q: QueryItem>(&mut self, items: Q) -> (walk: QueryIter<Q>)
        requires
            old(self).wf(),
            items.ready(old(self).registry()),
        ensures
            final(self).wf(),
            final(self).queried(
                old(self),
                crate::query::required_of(&items, &(), old(self).registry()),
                crate::query::excluded_of(&items, &(), old(self).registry()),
            ),
            walk.items() == items,
            walk.fresh(),
            walk.valid_for(final(self)),
            walk.matching() == crate::cache::matching(
                old(self).masks(),
                crate::query::required_of(&items, &(), old(self).registry()),
                crate::query::excluded_of(&items, &(), old(self).registry()),
                old(self).archetypes().len() as int,
            ),
    {
        self.query_filtered(items, &())
    }

    /// Starts a walk over the rows of all archetypes that have the columns
    /// that are fetched and pass the filter. The match list comes from the
    /// cache, which is brought up to date for the archetypes that were added
    /// since the same query was made last.
    #[must_use]
    pub fn query_filtered<Q: QueryItem, F: Filter>(&mut self, items: Q, filter: &F) -> (walk:
        QueryIter<Q>)
        requires
            old(self).wf(),
            items.ready(old(self).registry()),
            filter.ready(old(self).registry()),
        ensures
            final(self).wf(),
            final(self).queried(
                old(self),
                crate::query::required_of(&items, filter, old(self).registry()),
                crate::query::excluded_of(&items, filter, old(self).registry()),
            ),
            walk.items() == items,
            walk.fresh(),
            walk.valid_for(final(self)),
            walk.matching() == crate::cache::matching(
                old(self).masks(),
                crate::query::required_of(&items, filter, old(self).registry()),
                crate::query::excluded_of(&items, filter, old(self).registry()),
                old(self).archetypes().len() as int,
            ),
    {
        let fetched = items.bitmask(self);
        let filtered = filter.bitmask(self);
        let required = fetched.0 | filtered.0;
        let excluded = fetched.1 | filtered.1;
        let mut entry = match self.cache.remove(required, excluded) {
            Some(entry) => entry,
            None => CacheEntry::new(),
        };
        proof {
            if old(self).cache_entries().contains_key((required, excluded)) {
                assert(entry.valid_for(self.masks(), required, excluded));
            }
        }
        entry.update(&self.archetypes, required, excluded);
        let matching = crate::query::copy_indices(&entry.archetypes);
        let ghost filed = entry;
        self.cache.insert(required, excluded, entry.high_water_mark, entry.archetypes);
        let walk = QueryIter::new(items, matching);
        proof {
            assert(self.archetypes() == old(self).archetypes());
            assert(self.masks() == old(self).masks());
            assert(self.cache_entries()[(required, excluded)] == filed);
            assert forall|key: (u64, u64)| #[trigger]
                self.cache_entries().contains_key(key) implies self.cache_entries()[key].valid_for(
                self.masks(),
                key.0,
                key.1,
            ) by {
                if key != (required, excluded) {
                    assert(old(self).cache_entries().contains_key(key));
                }
            }
            assert(self.cache_entries().dom() =~= old(self).cache_entries().dom().insert(
                (required, excluded),
            ));
            assert(old(self).registry_wf());
            assert(self.registry() == old(self).registry());
            assert(self.type_ids() == old(self).type_ids());
            assert(self.registry_wf());
            assert(old(self).index_wf());
            assert(self.index() == old(self).index());
            assert(self.index_wf());
            assert(old(self).links_wf());
            assert(self.entity_table() == old(self).entity_table());
            assert(self.links_wf());
            assert(old(self).archetypes_wf());
            assert(self.archetypes_wf());
            crate::bits::lemma_part_of_union(fetched.0, filtered.0);
            walk.lemma_fresh(self, required, excluded);
        }
        walk
    }

    /// Takes the borrows of a query on the columns of an archetype. If one
    /// of them cannot be had, none is taken.
    pub fn acquire<Q: QueryItem>(&mut self, index: usize, items: &Q) -> (ok: bool)
        requires
            old(self).wf(),
            index < old(self).archetypes().len(),
        ensures
            final(self).wf(),
            final(self).same_store(old(self)),
            forall|i: int|
                0 <= i < final(self).archetypes().len() && i != index
                    ==> #[trigger] final(self).archetypes()[i] == old(self).archetypes()[i],
            ok == items.acquired(old(self).archetypes()[index as int].borrows()).is_some(),
            final(self).archetypes()[index as int].borrows() == if ok {
                items.acquired(old(self).archetypes()[index as int].borrows()).unwrap()
            } else {
                old(self).archetypes()[index as int].borrows()
            },
    {
        proof {
            assert(self.archetype_wf(self.archetypes()[index as int]));
        }
        let ok = items.borrow(&mut self.archetypes[index]);
        proof {
            assert forall|i: int| 0 <= i < self.archetypes().len() implies (
            #[trigger] self.archetypes()[i]).same_rows(&old(self).archetypes()[i]) by {}
            self.lemma_same_store(old(self));
        }
        ok
    }

    /// Gives back the borrows of a query on the columns of an archetype.
    pub fn release<Q: QueryItem>(&mut self, index: usize, items: &Q)
        requires
            old(self).wf(),
            index < old(self).archetypes().len(),
        ensures
            final(self).wf(),
            final(self).same_store(old(self)),
            forall|i: int|
                0 <= i < final(self).archetypes().len() && i != index
                    ==> #[trigger] final(self).archetypes()[i] == old(self).archetypes()[i],
            final(self).archetypes()[index as int].borrows() == items.released(
                old(self).archetypes()[index as int].borrows(),
            ),
    {
        proof {
            assert(self.archetype_wf(self.archetypes()[index as int]));
        }
        items.release(&mut self.archetypes[index]);
        proof {
            assert forall|i: int| 0 <= i < self.archetypes().len() implies (
            #[trigger] self.archetypes()[i]).same_rows(&old(self).archetypes()[i]) by {}
            self.lemma_same_store(old(self));
        }
    }
}

// The steps that the operations are made of.
impl World {
    /// The index of the archetype with the given bitmask. If there is none
    /// yet, one without columns and rows is added at the end.
    fn archetype_for(&mut self, mask: u64) -> (target: usize)
        requires
            old(self).index_wf(),
        ensures
            final(self).index_wf(),
            final(self).entity_table() == old(self).entity_table(),
            final(self).registry() == old(self).registry(),
            final(self).type_count() == old(self).type_count(),
            final(self).type_ids() == old(self).type_ids(),
            final(self).cache_entries() == old(self).cache_entries(),
            target < final(self).archetypes().len(),
            final(self).archetypes()[target as int].mask() == mask,
            old(self).index().contains_key(mask) ==> {
                &&& final(self).archetypes() == old(self).archetypes()
                &&& target == old(self).index()[mask]
            },
            !old(self).index().contains_key(mask) ==> {
                &&& target == old(self).archetypes().len()
                &&& final(self).archetypes() == old(self).archetypes().push(
                    final(self).archetypes()[target as int],
                )
                &&& final(self).archetypes()[target as int].wf()
                &&& final(self).archetypes()[target as int].balanced()
                &&& final(self).archetypes()[target as int].rows().len() == 0
                &&& final(self).archetypes()[target as int].ids().len() == 0
            },
    {
        broadcast use vstd::std_specs::hash::group_hash_axioms;

        match self.archetype_map.get(&mask) {
            Some(index) => {
                return *index;
            },
            None => {},
        }
        self.archetypes.push(Archetype::new(mask));
        let target: usize = self.archetypes.len() - 1;
        self.archetype_map.insert(mask, target);
        proof {
            assert(self.archetypes() =~= old(self).archetypes().push(
                self.archetypes()[target as int],
            ));
            assert forall|m: u64| #[trigger] self.index().contains_key(m) implies self.index()[m]
                < self.archetypes().len() && self.archetypes()[self.index()[m] as int].mask()
                == m by {
                if m != mask {
                    assert(old(self).index().contains_key(m));
                }
            }
            assert forall|i: int| 0 <= i < self.archetypes().len()
                implies self.index().contains_key(
                (#[trigger] self.archetypes()[i]).mask(),
            ) && self.index()[self.archetypes()[i].mask()] == i by {
                if i < target {
                    assert(self.archetypes()[i] == old(self).archetypes()[i]);
                    assert(old(self).index().contains_key(old(self).archetypes()[i].mask()));
                }
            }
        }
        target
    }

    /// Gives an entity without a row the components of a bundle: the row is
    /// appended to the archetype of the given bitmask, which is created if
    /// there is none yet.
    fn attach(&mut self, entity: Entity, bundle: Bundle, mask: u64)
        requires
            old(self).wf(),
            old(self).alive(entity),
            old(self).location(entity) == Location::spec_empty(),
            bundle.wf(),
            old(self).bundle_matches(&bundle, mask),
        ensures
            final(self).wf(),
            final(self).extends(old(self)),
            final(self).borrows_kept(old(self)),
            final(self).registry() == old(self).registry(),
            final(self).type_count() == old(self).type_count(),
            final(self).type_ids() == old(self).type_ids(),
            final(self).cache_entries() == old(self).cache_entries(),
            final(self).entity_table().free_list() == old(self).entity_table().free_list(),
            final(self).alive(entity),
            final(self).placed(entity),
            final(self).components(entity) == bundle.values(),
            final(self).others_kept(old(self), entity),
            final(self).relocated(old(self), entity, mask),
    {
        let target = self.archetype_for(mask);
        let ghost mid = *self;
        let total: usize = self.archetypes.len();
        let row: usize = self.archetypes[target].count();
        proof {
            let archetype = mid.archetypes()[target as int];
            archetype.lemma_wf();
            if old(self).index().contains_key(mask) {
                assert(old(self).archetype_wf(old(self).archetypes()[target as int]));
                assert(bundle.fits(&archetype));
                assert(bundle.completes(&archetype));
            } else {
                assert forall|id: ComponentId| !archetype.has(id) by {
                    if archetype.has(id) {
                        let k = choose|k: int| 0 <= k < archetype.ids().len() && archetype.ids()[k]
                            == id;
                    }
                }
                assert(bundle.fits(&archetype));
                assert(bundle.completes(&archetype));
            }
        }
        bundle.put(entity, &mut self.archetypes[target]);
        self.entities.set_location(entity.index, Location { archetype: target, row });
        proof {
            let source = mid.archetypes()[target as int];
            let archetype = self.archetypes()[target as int];
            let n = old(self).archetypes().len() as int;
            assert(self.archetypes().len() == mid.archetypes().len());
            assert forall|i: int| 0 <= i < self.archetypes().len() && i
                != target implies #[trigger] self.archetypes()[i] == mid.archetypes()[i] by {}
            assert forall|i: int| 0 <= i < n && i != target implies #[trigger] self.archetypes()[i]
                == old(self).archetypes()[i] by {
                assert(self.archetypes()[i] == mid.archetypes()[i]);
            }
            if target < n {
                assert(source == old(self).archetypes()[target as int]);
                assert(old(self).archetype_wf(source));
            }
            // the target archetype
            assert forall|id: ComponentId| archetype.has(id) <==> bundle.has(id) by {
                assert(archetype.table().contains_key(id) <==> (source.has(id) || bundle.has(id)));
            }
            assert(self.archetype_wf(archetype)) by {
                assert forall|id: ComponentId| #[trigger] archetype.has(id)
                    implies archetype.layout()[id]
                    == self.info(id) by {
                    assert(archetype.layout()[id] == bundle.layout_after_put(&source)[id]);
                }
            }
            assert forall|i: int| 0 <= i < self.archetypes().len() implies self.archetype_wf(
                #[trigger] self.archetypes()[i],
            ) by {
                if i != target {
                    assert(old(self).archetype_wf(old(self).archetypes()[i]));
                }
            }
            // lookup and cache
            assert forall|i: int| 0 <= i < n implies (#[trigger] self.archetypes()[i]).mask()
                == old(self).archetypes()[i].mask() && self.archetypes()[i].table().dom()
                == old(self).archetypes()[i].table().dom() && self.archetypes()[i].borrows()
                == old(self).archetypes()[i].borrows() by {
                if i == target {
                    assert forall|id: ComponentId| source.has(id) <==> bundle.has(id) by {}
                    assert(archetype.table().dom() =~= source.table().dom());
                    assert(archetype.borrows() =~= source.borrows());
                } else {
                    assert(self.archetypes()[i] == old(self).archetypes()[i]);
                }
            }
            assert forall|i: int, id: ComponentId|
                n <= i < self.archetypes().len() && self.archetypes()[i].has(
                    id,
                ) implies #[trigger] self.archetypes()[i].borrows()[id]
                == crate::borrow::BorrowCounter::spec_new() by {
                assert(i == target);
                assert(!source.has(id));
            }
            self.lemma_index_kept(&mid);
            self.lemma_cache_kept(old(self));
            // entities
            let metas = old(self).entity_table().metas();
            assert(self.entity_table().metas() == metas.update(
                entity.index as int,
                (EntityMeta {
                    location: Location { archetype: target, row },
                    ..metas[entity.index as int]
                }),
            ));
            assert(self.entity_table().wf());
            assert forall|other: Entity| other.index != entity.index implies self.alive(other)
                == old(self).alive(other) && (other.index < metas.len() ==> self.location(other)
                == old(self).location(other)) by {}
            assert(archetype.rows() == source.rows().push(entity));
            assert(source.rows().len() == row);
            // rows of the target that were there before belong to other slots
            assert forall|r: int| 0 <= r < row implies (#[trigger] source.rows()[r]).index
                != entity.index by {
                let other = old(self).archetypes()[target as int].rows()[r];
                assert(old(self).entity_table().alive(other));
            }
            assert forall|other: Entity|
                #[trigger] self.entity_table().alive(other) && self.location(other)
                    != Location::spec_empty() implies {
                let location = self.location(other);
                &&& location.archetype < self.archetypes().len()
                &&& location.row < self.archetypes()[location.archetype as int].rows().len()
                &&& self.archetypes()[location.archetype as int].rows()[location.row as int]
                    == other
            } by {
                if other.index != entity.index {
                    assert(old(self).entity_table().alive(other));
                    let location = old(self).location(other);
                    if location.archetype != target {
                        assert(self.archetypes()[location.archetype as int]
                            == old(self).archetypes()[location.archetype as int]);
                    }
                }
            }
            assert forall|i: int, r: int|
                0 <= i < self.archetypes().len() && 0 <= r < self.archetypes()[i].rows().len()
                    implies {
                let other = #[trigger] self.archetypes()[i].rows()[r];
                &&& self.entity_table().alive(other)
                &&& self.location(other).archetype == i
                &&& self.location(other).row == r
            } by {
                if i == target {
                    if r < row {
                        let other = old(self).archetypes()[i].rows()[r];
                        assert(old(self).entity_table().alive(other));
                        assert(other.index != entity.index);
                    }
                } else {
                    let other = old(self).archetypes()[i].rows()[r];
                    assert(old(self).entity_table().alive(other));
                    assert(old(self).location(other) != Location::spec_empty());
                    assert(other.index != entity.index);
                }
            }
            // components
            assert(self.components(entity) =~= bundle.values()) by {
                assert forall|id: ComponentId| #[trigger] bundle.has(id)
                    implies archetype.table()[id][row as int]
                    == bundle.values()[id] by {
                    assert(archetype.table()[id] == bundle.table_after_put(&source)[id]);
                    if source.has(id) {
                        assert(source.table()[id].len() == source.rows().len());
                    }
                }
            }
            assert forall|other: Entity|
                #![trigger self.alive(other)]
                #![trigger self.components(other)]
                other != entity implies self.alive(other) == old(self).alive(other)
                    && self.components(
                other,
            ) == old(self).components(other) by {
                if other.index != entity.index {
                    if old(self).placed(other) {
                        assert(old(self).entity_table().alive(other));
                        let location = old(self).location(other);
                        if location.archetype == target {
                            let before = old(self).archetypes()[target as int];
                            assert forall|id: ComponentId| #[trigger]
                                before.has(id) implies archetype.table()[id][location.row as int]
                                == before.table()[id][location.row as int] by {
                                assert(archetype.table()[id] == bundle.table_after_put(
                                    &source,
                                )[id]);
                                assert(before.table()[id].len() == before.rows().len());
                            }
                            assert(self.components(other) =~= old(self).components(other));
                        } else {
                            assert(self.archetypes()[location.archetype as int]
                                == old(self).archetypes()[location.archetype as int]);
                        }
                    }
                }
            }
            assert(!old(self).placed(entity));
            assert(self.location(entity) == old(self).arrival(mask));
            assert forall|other: Entity|
                #![trigger self.location(other)]
                other != entity && old(self).alive(other) implies self.location(other)
                    == old(self).after_leaving(entity, other) by {
                assert(other.index != entity.index);
            }
            assert forall|i: int| 0 <= i < self.archetypes().len()
                implies #[trigger] self.counts()[i]
                == (if i < old(self).archetypes().len() {
                old(self).counts()[i]
            } else {
                0
            }) - (if old(self).placed(entity) && i == old(self).location(entity).archetype {
                1nat
            } else {
                0
            }) + (if i == old(self).arrival(mask).archetype {
                1nat
            } else {
                0
            }) by {
                if i != target {
                    assert(self.archetypes()[i] == old(self).archetypes()[i]);
                }
            }
        }
    }

    /// Takes the row of an entity out of its archetype and leaves the entity
    /// without components. The last row of the archetype moves into the
    /// place of the removed one, and the entity of that row is told. With
    /// `keep` the values of the row are handed back; otherwise they are
    /// discarded.
    fn detach(&mut self, entity: Entity, keep: bool) -> (bundle: Bundle)
        requires
            old(self).wf(),
            old(self).placed(entity),
        ensures
            final(self).wf(),
            final(self).extends(old(self)),
            final(self).borrows_kept(old(self)),
            final(self).registry() == old(self).registry(),
            final(self).type_count() == old(self).type_count(),
            final(self).type_ids() == old(self).type_ids(),
            final(self).cache_entries() == old(self).cache_entries(),
            final(self).index() == old(self).index(),
            final(self).entity_table().free_list() == old(self).entity_table().free_list(),
            final(self).entity_table().metas().len() == old(self).entity_table().metas().len(),
            final(self).entity_table().metas()[entity.index as int].generation
                == old(self).entity_table().metas()[entity.index as int].generation,
            final(self).alive(entity),
            final(self).location(entity) == Location::spec_empty(),
            final(self).others_kept(old(self), entity),
            final(self).left(old(self), entity),
            forall|i: int|
                0 <= i < final(self).archetypes().len()
                    ==> (#[trigger] final(self).archetypes()[i]).mask()
                    == old(self).archetypes()[i].mask(),
            bundle.wf(),
            keep ==> bundle.values() == old(self).components(entity),
            keep ==> old(self).bundle_matches(
                &bundle,
                old(self).archetypes()[old(self).location(entity).archetype as int].mask(),
            ),
    {
        let location = self.entities.meta(entity.index).location;
        let ghost source = old(self).archetypes()[location.archetype as int];
        proof {
            assert(old(self).entity_table().alive(entity));
            assert(old(self).archetype_wf(source));
        }
        let (moved, bundle) = if keep {
            self.archetypes[location.archetype].move_to(location.row)
        } else {
            (self.archetypes[location.archetype].swap_remove(location.row), Bundle::new())
        };
        match moved {
            Some(other) => {
                proof {
                    let last = source.rows().len() - 1;
                    assert(other == source.rows()[last]);
                    assert(old(self).entity_table().alive(source.rows()[last]));
                }
                self.entities.set_location(other.index, location);
            },
            None => {},
        }
        self.entities.set_location(entity.index, Location::empty());
        proof {
            let a = location.archetype as int;
            let row = location.row as int;
            let last = source.rows().len() - 1;
            let archetype = self.archetypes()[a];
            let metas = old(self).entity_table().metas();
            assert(self.archetypes().len() == old(self).archetypes().len());
            assert forall|i: int| 0 <= i < self.archetypes().len() && i
                != a implies #[trigger] self.archetypes()[i] == old(self).archetypes()[i] by {}
            assert(archetype.rows() == crate::blob_data::swap_removed(source.rows(), row));
            assert(archetype.table() == source.table().map_values(
                |column: Seq<Seq<u8>>| crate::blob_data::swap_removed(column, row),
            ));
            // archetypes
            assert(self.archetype_wf(archetype)) by {
                assert forall|id: ComponentId| archetype.has(id) <==> source.has(id) by {
                    assert(archetype.table().contains_key(id) <==> source.table().contains_key(id));
                }
            }
            assert forall|i: int| 0 <= i < self.archetypes().len() implies self.archetype_wf(
                #[trigger] self.archetypes()[i],
            ) by {
                if i != a {
                    assert(old(self).archetype_wf(old(self).archetypes()[i]));
                }
            }
            assert forall|i: int| 0 <= i < self.archetypes().len() implies (
            #[trigger] self.archetypes()[i]).mask() == old(self).archetypes()[i].mask()
                && self.archetypes()[i].table().dom() == old(self).archetypes()[i].table().dom()
                && self.archetypes()[i].borrows() == old(self).archetypes()[i].borrows() by {
                if i != a {
                    assert(self.archetypes()[i] == old(self).archetypes()[i]);
                } else {
                    assert(archetype.table().dom() =~= source.table().dom());
                }
            }
            self.lemma_index_kept(old(self));
            self.lemma_cache_kept(old(self));
            // the slots whose records changed
            let mover = source.rows()[last];
            assert(old(self).entity_table().alive(mover));
            assert(old(self).location(mover).archetype == a && old(self).location(mover).row
                == last);
            assert forall|slot: int| 0 <= slot < metas.len()
                implies #[trigger] self.entity_table().metas()[slot]
                == (if slot == entity.index {
                EntityMeta { location: Location::spec_empty(), ..metas[slot] }
            } else if row != last && slot == mover.index {
                EntityMeta { location, ..metas[slot] }
            } else {
                metas[slot]
            }) by {}
            assert(self.entity_table().wf());
            assert forall|other: Entity|
                self.alive(other) == old(self).alive(other) by {}
            assert forall|r: int| 0 <= r < source.rows().len() implies {
                let other = #[trigger] source.rows()[r];
                &&& old(self).entity_table().alive(other)
                &&& old(self).location(other).archetype == a
                &&& old(self).location(other).row == r
            } by {
                assert(source.rows()[r] == old(self).archetypes()[a].rows()[r]);
            }
            assert forall|other: Entity|
                #[trigger] self.entity_table().alive(other) && self.location(other)
                    != Location::spec_empty() implies {
                let place = self.location(other);
                &&& place.archetype < self.archetypes().len()
                &&& place.row < self.archetypes()[place.archetype as int].rows().len()
                &&& self.archetypes()[place.archetype as int].rows()[place.row as int] == other
            } by {
                assert(old(self).entity_table().alive(other));
                if row != last && other.index == mover.index {
                    assert(other == mover);
                } else {
                    let place = old(self).location(other);
                    assert(other.index != entity.index);
                    if place.archetype == a {
                        assert(source.rows()[place.row as int] == other);
                        assert(place.row != row);
                        assert(place.row != last);
                    } else {
                        assert(self.archetypes()[place.archetype as int]
                            == old(self).archetypes()[place.archetype as int]);
                    }
                }
            }
            assert forall|i: int, r: int|
                0 <= i < self.archetypes().len() && 0 <= r < self.archetypes()[i].rows().len()
                    implies {
                let other = #[trigger] self.archetypes()[i].rows()[r];
                &&& self.entity_table().alive(other)
                &&& self.location(other).archetype == i
                &&& self.location(other).row == r
            } by {
                if i == a {
                    if r == row {
                        assert(archetype.rows()[r] == mover);
                        assert(mover.index != entity.index);
                    } else {
                        let other = source.rows()[r];
                        assert(archetype.rows()[r] == other);
                        assert(other.index != entity.index);
                        assert(other.index != mover.index);
                    }
                } else {
                    let other = old(self).archetypes()[i].rows()[r];
                    assert(old(self).entity_table().alive(other));
                    assert(other.index != entity.index);
                    assert(other.index != mover.index);
                }
            }
            // components
            assert forall|other: Entity|
                #![trigger self.alive(other)]
                #![trigger self.components(other)]
                other != entity implies self.alive(other) == old(self).alive(other)
                    && self.components(
                other,
            ) == old(self).components(other) by {
                if old(self).placed(other) {
                    assert(old(self).entity_table().alive(other));
                    assert(other.index != entity.index);
                    let place = old(self).location(other);
                    if place.archetype == a {
                        assert(source.rows()[place.row as int] == other);
                        assert forall|id: ComponentId| #[trigger]
                            source.has(id) implies source.table()[id].len()
                            == source.rows().len() by {}
                        if row != last && other.index == mover.index {
                            assert(other == mover);
                            assert(self.location(other) == location);
                        } else {
                            assert(place.row != row);
                            assert(self.location(other) == place);
                        }
                        assert(self.components(other) =~= old(self).components(other));
                    } else {
                        assert(self.archetypes()[place.archetype as int]
                            == old(self).archetypes()[place.archetype as int]);
                    }
                } else {
                    assert(!self.placed(other)) by {
                        if old(self).alive(other) {
                            assert(other.index != entity.index);
                            if row != last {
                                assert(other.index != mover.index);
                            }
                        }
                    }
                }
            }
            assert forall|i: int| 0 <= i < self.archetypes().len()
                implies #[trigger] self.counts()[i]
                == old(self).counts()[i] - (if old(self).placed(entity) && i
                    == old(self).location(entity).archetype {
                1nat
            } else {
                0
            }) by {
                if i != a {
                    assert(self.archetypes()[i] == old(self).archetypes()[i]);
                }
            }
            assert forall|other: Entity|
                #![trigger self.location(other)]
                other != entity && old(self).alive(other) implies self.location(other)
                    == old(self).after_leaving(entity, other) by {
                assert(old(self).entity_table().alive(other));
                assert(other.index != entity.index);
                let place = old(self).location(other);
                if place.archetype == a && place.row == last {
                    assert(place != Location::spec_empty());
                    assert(source.rows()[place.row as int] == other);
                    assert(other == mover);
                } else if row != last {
                    if other.index == mover.index {
                        assert(other == mover);
                    }
                }
            }
            assert(old(self).registry_wf());
            assert(self.registry() == old(self).registry());
            assert(self.type_ids() == old(self).type_ids());
            assert(self.registry_wf());
            if keep {
                assert(bundle.values() =~= old(self).components(entity));
                assert forall|id: ComponentId| bundle.has(id) <==> source.has(id) by {
                    assert(bundle.values().contains_key(id) <==> source.table().contains_key(id));
                }
                assert forall|id: ComponentId| #[trigger] bundle.has(id) implies bundle.infos()[id]
                    == old(self).info(id) by {
                    assert(source.has(id));
                }
            }
        }
        bundle
    }

    /// Overwrites a component that the entity has.
    fn overwrite(&mut self, entity: Entity, id: ComponentId, bytes: &[u8])
        requires
            old(self).wf(),
            old(self).placed(entity),
            old(self).components(entity).contains_key(id),
            old(self).registry().contains_key(id),
            bytes@.len() == old(self).info(id).size,
        ensures
            final(self).wf(),
            final(self).extends(old(self)),
            final(self).borrows_kept(old(self)),
            final(self).registry() == old(self).registry(),
            final(self).type_count() == old(self).type_count(),
            final(self).type_ids() == old(self).type_ids(),
            final(self).inserted(old(self), entity, id, bytes@),
            final(self).same_shape(old(self)),
    {
        let location = self.entities.meta(entity.index).location;
        let ghost source = old(self).archetypes()[location.archetype as int];
        proof {
            assert(old(self).entity_table().alive(entity));
            assert(old(self).archetype_wf(source));
            assert(source.has(id));
            assert(source.table()[id].len() == source.rows().len());
        }
        let _previous = self.archetypes[location.archetype].replace(id, location.row, bytes);
        proof {
            let a = location.archetype as int;
            let row = location.row as int;
            let archetype = self.archetypes()[a];
            assert(self.archetypes().len() == old(self).archetypes().len());
            assert forall|i: int| 0 <= i < self.archetypes().len() && i
                != a implies #[trigger] self.archetypes()[i] == old(self).archetypes()[i] by {}
            assert(archetype.table() == source.table().insert(
                id,
                source.table()[id].update(row, bytes@),
            ));
            assert forall|k: ComponentId| archetype.has(k) <==> source.has(k) by {
                assert(archetype.table().contains_key(k) <==> source.table().contains_key(k));
            }
            assert(archetype.balanced()) by {
                assert forall|k: ComponentId| #[trigger] archetype.has(k)
                    implies archetype.table()[k].len()
                    == archetype.rows().len() by {
                    assert(source.has(k));
                    assert(source.table()[k].len() == source.rows().len());
                }
            }
            assert(self.archetype_wf(archetype));
            assert forall|i: int| 0 <= i < self.archetypes().len() implies self.archetype_wf(
                #[trigger] self.archetypes()[i],
            ) by {
                if i != a {
                    assert(old(self).archetype_wf(old(self).archetypes()[i]));
                }
            }
            assert forall|i: int| 0 <= i < self.archetypes().len() implies (
            #[trigger] self.archetypes()[i]).mask() == old(self).archetypes()[i].mask() by {
                if i != a {
                    assert(self.archetypes()[i] == old(self).archetypes()[i]);
                }
            }
            self.lemma_index_kept(old(self));
            self.lemma_cache_kept(old(self));
            assert(old(self).registry_wf());
            assert(self.registry_wf());
            assert forall|other: Entity|
                #[trigger] self.entity_table().alive(other) && self.location(other)
                    != Location::spec_empty() implies {
                let place = self.location(other);
                &&& place.archetype < self.archetypes().len()
                &&& place.row < self.archetypes()[place.archetype as int].rows().len()
                &&& self.archetypes()[place.archetype as int].rows()[place.row as int] == other
            } by {
                assert(old(self).entity_table().alive(other));
                let place = old(self).location(other);
                if place.archetype != a {
                    assert(self.archetypes()[place.archetype as int]
                        == old(self).archetypes()[place.archetype as int]);
                }
            }
            assert forall|i: int, r: int|
                0 <= i < self.archetypes().len() && 0 <= r < self.archetypes()[i].rows().len()
                    implies {
                let other = #[trigger] self.archetypes()[i].rows()[r];
                &&& self.entity_table().alive(other)
                &&& self.location(other).archetype == i
                &&& self.location(other).row == r
            } by {
                let other = old(self).archetypes()[i].rows()[r];
                assert(old(self).entity_table().alive(other));
                if i != a {
                    assert(self.archetypes()[i] == old(self).archetypes()[i]);
                }
            }
            assert(self.components(entity) =~= old(self).components(entity).insert(id, bytes@));
            assert forall|i: int| 0 <= i < self.archetypes().len() implies {
                &&& (#[trigger] self.archetypes()[i]).rows() == old(self).archetypes()[i].rows()
                &&& self.archetypes()[i].table().dom() == old(self).archetypes()[i].table().dom()
                &&& self.archetypes()[i].borrows() == old(self).archetypes()[i].borrows()
                &&& self.archetypes()[i].layout() == old(self).archetypes()[i].layout()
                &&& self.archetypes()[i].mask() == old(self).archetypes()[i].mask()
            } by {
                if i == a {
                    assert(archetype.table().dom() =~= source.table().dom());
                } else {
                    assert(self.archetypes()[i] == old(self).archetypes()[i]);
                }
            }
            assert forall|other: Entity|
                #![trigger self.alive(other)]
                #![trigger self.components(other)]
                other != entity implies self.alive(other) == old(self).alive(other)
                && self.components(other) == old(self).components(other) by {
                if old(self).placed(other) {
                    assert(old(self).entity_table().alive(other));
                    let place = old(self).location(other);
                    if place.archetype == a {
                        assert(source.rows()[place.row as int] == other);
                        assert(place.row != row);
                        assert(self.components(other) =~= old(self).components(other));
                    } else {
                        assert(self.archetypes()[place.archetype as int]
                            == old(self).archetypes()[place.archetype as int]);
                    }
                }
            }
        }
    }
}

// Lemmas.
impl World {
    /// Worlds that differ only in borrows are both well formed or neither,
    /// and show the same entities with the same components.
    pub proof fn lemma_same_store(&self, before: &World)
        requires
            before.wf(),
            self.same_store(before),
        ensures
            self.wf(),
            self.extends(before),
            self.counts() == before.counts(),
            self.masks() == before.masks(),
            forall|entity: Entity|
                #![trigger self.alive(entity)]
                #![trigger self.components(entity)]
                self.alive(entity) == before.alive(entity) && self.components(entity)
                    == before.components(entity),
    {
        assert forall|i: int| 0 <= i < self.archetypes().len() implies self.archetype_wf(
            #[trigger] self.archetypes()[i],
        ) by {
            let now = self.archetypes()[i];
            let then = before.archetypes()[i];
            assert(now.same_rows(&then));
            assert(before.archetype_wf(then));
            assert forall|id: ComponentId| now.has(id) <==> then.has(id) by {
                assert(now.table().contains_key(id) <==> then.table().contains_key(id));
            }
        }
        assert forall|i: int| 0 <= i < self.archetypes().len() implies (
        #[trigger] self.archetypes()[i]).mask() == before.archetypes()[i].mask() by {
            assert(self.archetypes()[i].same_rows(&before.archetypes()[i]));
        }
        self.lemma_index_kept(before);
        self.lemma_cache_kept(before);
        assert(before.registry_wf());
        assert(self.registry_wf());
        assert forall|entity: Entity|
            #[trigger] self.entity_table().alive(entity) && self.location(entity)
                != Location::spec_empty() implies {
            let place = self.location(entity);
            &&& place.archetype < self.archetypes().len()
            &&& place.row < self.archetypes()[place.archetype as int].rows().len()
            &&& self.archetypes()[place.archetype as int].rows()[place.row as int] == entity
        } by {
            assert(before.entity_table().alive(entity));
            let place = before.location(entity);
            assert(self.archetypes()[place.archetype as int].same_rows(
                &before.archetypes()[place.archetype as int],
            ));
        }
        assert forall|i: int, r: int|
            0 <= i < self.archetypes().len() && 0 <= r < self.archetypes()[i].rows().len() implies {
            let entity = #[trigger] self.archetypes()[i].rows()[r];
            &&& self.entity_table().alive(entity)
            &&& self.location(entity).archetype == i
            &&& self.location(entity).row == r
        } by {
            assert(self.archetypes()[i].same_rows(&before.archetypes()[i]));
            let entity = before.archetypes()[i].rows()[r];
            assert(before.entity_table().alive(entity));
        }
        assert forall|entity: Entity|
            #![trigger self.alive(entity)]
            #![trigger self.components(entity)]
            self.alive(entity) == before.alive(entity) && self.components(entity)
                == before.components(entity) by {
            if before.placed(entity) {
                assert(before.entity_table().alive(entity));
                let place = before.location(entity);
                assert(self.archetypes()[place.archetype as int].same_rows(
                    &before.archetypes()[place.archetype as int],
                ));
            }
        }
        assert(self.counts() =~= before.counts()) by {
            assert forall|i: int| 0 <= i < self.archetypes().len() implies self.counts()[i]
                == before.counts()[i] by {
                assert(self.archetypes()[i].same_rows(&before.archetypes()[i]));
            }
        }
        assert(self.masks() =~= before.masks());
    }

    /// Borrows that are kept over two steps are kept over both.
    pub proof fn lemma_borrows_chain(&self, mid: &World, before: &World)
        requires
            self.borrows_kept(mid),
            mid.borrows_kept(before),
            self.extends(mid),
        ensures
            self.borrows_kept(before),
    {
        assert forall|i: int| 0 <= i < before.archetypes().len() implies (
        #[trigger] self.archetypes()[i]).borrows() == before.archetypes()[i].borrows() by {
            assert(mid.archetypes()[i].borrows() == before.archetypes()[i].borrows());
        }
        assert forall|i: int, id: ComponentId|
            before.archetypes().len() <= i < self.archetypes().len() && self.archetypes()[i].has(
                id,
            ) implies #[trigger] self.archetypes()[i].borrows()[id]
            == crate::borrow::BorrowCounter::spec_new() by {
            if i < mid.archetypes().len() {
                assert(self.archetypes()[i].borrows() == mid.archetypes()[i].borrows());
                assert(self.archetypes()[i].table().dom() == mid.archetypes()[i].table().dom());
                assert(mid.archetypes()[i].table().dom().contains(id));
                assert(mid.archetypes()[i].has(id));
            }
        }
    }

    /// Growth is transitive.
    proof fn lemma_extends_chain(&self, mid: &World, before: &World)
        requires
            self.extends(mid),
            mid.extends(before),
        ensures
            self.extends(before),
    {
        assert forall|i: int| 0 <= i < before.archetypes().len() implies (
        #[trigger] self.archetypes()[i]).mask() == before.archetypes()[i].mask()
            && self.archetypes()[i].table().dom() == before.archetypes()[i].table().dom() by {
            assert(mid.archetypes()[i].mask() == before.archetypes()[i].mask());
        }
        assert forall|id: ComponentId| #[trigger]
            before.registry().contains_key(id) implies self.registry().contains_key(id)
            && self.registry()[id] == before.registry()[id] by {
            assert(mid.registry().contains_key(id));
        }
    }

    /// Two steps that each keep the other entities keep them together.
    proof fn lemma_others_chain(&self, mid: &World, before: &World, entity: Entity)
        requires
            self.others_kept(mid, entity),
            mid.others_kept(before, entity) || forall|other: Entity|
                #![trigger mid.alive(other)]
                #![trigger mid.components(other)]
                mid.alive(other) == before.alive(other) && mid.components(other)
                    == before.components(other),
        ensures
            self.others_kept(before, entity),
    {
        assert forall|other: Entity|
            #![trigger self.alive(other)]
            #![trigger self.components(other)]
            other != entity implies self.alive(other) == before.alive(other) && self.components(
            other,
        ) == before.components(other) by {
            assert(self.alive(other) == mid.alive(other));
            assert(self.components(other) == mid.components(other));
            assert(mid.alive(other) == before.alive(other));
            assert(mid.components(other) == before.components(other));
        }
    }

    /// A world whose parts other than the registry are those of `before`
    /// shows the same entities with the same components.
    proof fn lemma_kept(&self, before: &World)
        requires
            self.archetypes() == before.archetypes(),
            self.entity_table() == before.entity_table(),
        ensures
            forall|entity: Entity|
                #![trigger self.alive(entity)]
                #![trigger self.components(entity)]
                self.alive(entity) == before.alive(entity) && self.components(entity)
                    == before.components(entity),
            self.counts() == before.counts(),
    {
    }

    /// Creating an entity leaves every other handle as it was.
    proof fn lemma_created(&self, before: &World, entity: Entity)
        requires
            before.wf(),
            self.entity_table().wf(),
            self.archetypes() == before.archetypes(),
            self.index() == before.index(),
            self.registry() == before.registry(),
            self.type_count() == before.type_count(),
            self.type_ids() == before.type_ids(),
            self.cache_entries() == before.cache_entries(),
            !before.alive(entity),
            self.alive(entity),
            self.location(entity) == Location::spec_empty(),
            before.entity_table().free_list().len() > 0 ==> {
                &&& entity.index == before.entity_table().free_list().last()
                &&& self.entity_table().metas() == before.entity_table().metas().update(
                    entity.index as int,
                    (EntityMeta {
                        generation: entity.generation,
                        location: Location::spec_empty(),
                        live: true,
                    }),
                )
            },
            before.entity_table().free_list().len() == 0 ==> {
                &&& entity.index == before.entity_table().metas().len()
                &&& self.entity_table().metas() == before.entity_table().metas().push(
                    (EntityMeta { generation: 0, location: Location::spec_empty(), live: true }),
                )
            },
        ensures
            self.wf(),
            self.others_kept(before, entity),
    {
        let free = before.entity_table().free_list();
        if free.len() > 0 {
            assert(free.contains(free[free.len() - 1]));
            assert(!before.entity_table().metas()[entity.index as int].live);
        }
        assert forall|other: Entity|
                #![trigger self.alive(other)]
                #![trigger self.components(other)]
                other != entity implies self.alive(other) == before.alive(other) && self.components(
                other,
            ) == before.components(other) by {
            if other.index != entity.index {
                if other.index < before.entity_table().metas().len() {
                    assert(self.entity_table().metas()[other.index as int]
                        == before.entity_table().metas()[other.index as int]);
                }
            }
        }
        assert forall|other: Entity|
            #[trigger] self.entity_table().alive(other) && self.location(other)
                != Location::spec_empty() implies {
            let location = self.location(other);
            &&& location.archetype < self.archetypes().len()
            &&& location.row < self.archetypes()[location.archetype as int].rows().len()
            &&& self.archetypes()[location.archetype as int].rows()[location.row as int] == other
        } by {
            assert(other != entity);
            assert(self.alive(other) == before.alive(other));
            assert(before.entity_table().alive(other));
        }
        assert forall|i: int, row: int|
            0 <= i < self.archetypes().len() && 0 <= row < self.archetypes()[i].rows().len()
                implies {
            let other = #[trigger] self.archetypes()[i].rows()[row];
            &&& self.entity_table().alive(other)
            &&& self.location(other).archetype == i
            &&& self.location(other).row == row
        } by {
            let other = before.archetypes()[i].rows()[row];
            assert(before.entity_table().alive(other));
            assert(other.index != entity.index);
        }
    }

    /// Creating an entity leaves the location of every other live entity as
    /// it was.
    proof fn lemma_created_locations(&self, before: &World, entity: Entity, other: Entity)
        requires
            before.entity_table().wf(),
            !before.alive(entity),
            before.alive(other),
            before.entity_table().free_list().len() > 0 ==> {
                &&& entity.index == before.entity_table().free_list().last()
                &&& self.entity_table().metas() == before.entity_table().metas().update(
                    entity.index as int,
                    (EntityMeta {
                        generation: entity.generation,
                        location: Location::spec_empty(),
                        live: true,
                    }),
                )
            },
            before.entity_table().free_list().len() == 0 ==> {
                &&& entity.index == before.entity_table().metas().len()
                &&& self.entity_table().metas() == before.entity_table().metas().push(
                    (EntityMeta { generation: 0, location: Location::spec_empty(), live: true }),
                )
            },
        ensures
            self.location(other) == before.location(other),
    {
        let free = before.entity_table().free_list();
        if free.len() > 0 {
            assert(free.contains(free[free.len() - 1]));
            assert(!before.entity_table().metas()[entity.index as int].live);
        }
    }

    /// The cached match lists stay right when archetypes are added.
    proof fn lemma_cache_kept(&self, before: &World)
        requires
            before.cache_wf(),
            self.cache_entries() == before.cache_entries(),
            self.archetypes().len() >= before.archetypes().len(),
            forall|i: int|
                0 <= i < before.archetypes().len() ==> (#[trigger] self.archetypes()[i]).mask()
                    == before.archetypes()[i].mask(),
        ensures
            self.cache_wf(),
    {
        assert forall|key: (u64, u64)| #[trigger]
            self.cache_entries().contains_key(key) implies self.cache_entries()[key].valid_for(
            self.masks(),
            key.0,
            key.1,
        ) by {
            let entry = before.cache_entries()[key];
            assert(entry.valid_for(before.masks(), key.0, key.1));
            crate::cache::lemma_matching_prefix(
                before.masks(),
                self.masks(),
                key.0,
                key.1,
                entry.high_water_mark as int,
            );
        }
    }

    /// The lookup by bitmask stays right when rows change but no archetype
    /// is added and no bitmask changes.
    proof fn lemma_index_kept(&self, before: &World)
        requires
            before.index_wf(),
            self.index() == before.index(),
            self.archetypes().len() == before.archetypes().len(),
            forall|i: int|
                0 <= i < before.archetypes().len() ==> (#[trigger] self.archetypes()[i]).mask()
                    == before.archetypes()[i].mask(),
        ensures
            self.index_wf(),
    {
        assert forall|i: int| 0 <= i < self.archetypes().len() implies self.index().contains_key(
            (#[trigger] self.archetypes()[i]).mask(),
        ) && self.index()[self.archetypes()[i].mask()] == i by {
            assert(before.index().contains_key(before.archetypes()[i].mask()));
        }
        assert forall|m: u64| #[trigger] self.index().contains_key(m) implies self.index()[m]
            < self.archetypes().len() && self.archetypes()[self.index()[m] as int].mask() == m by {
            assert(before.index().contains_key(m));
            let i = before.index()[m] as int;
            assert(self.archetypes()[i].mask() == before.archetypes()[i].mask());
        }
    }

    /// A relocation seen from a state of the world that stores all entities
    /// where the state before the relocation does.
    proof fn lemma_relocated_rebase(&self, mid: &World, before: &World, entity: Entity, mask: u64)
        requires
            self.relocated(mid, entity, mask),
            mid.archetypes() == before.archetypes(),
            mid.index() == before.index(),
            mid.placed(entity) == before.placed(entity),
            mid.placed(entity) ==> mid.location(entity) == before.location(entity),
            forall|other: Entity|
                #![trigger mid.location(other)]
                other != entity && before.alive(other) ==> mid.alive(other) && mid.location(other)
                    == before.location(other),
        ensures
            self.relocated(before, entity, mask),
    {
        assert(mid.counts() == before.counts());
        assert forall|other: Entity|
            #![trigger self.location(other)]
            other != entity && before.alive(other) implies self.location(other)
            == before.after_leaving(entity, other) by {
            assert(mid.location(other) == before.location(other));
        }
    }

    /// Leaving a row and then arriving in the archetype of another bitmask
    /// is a relocation.
    proof fn lemma_relocated_chain(&self, mid: &World, before: &World, entity: Entity, mask: u64)
        requires
            before.wf(),
            before.placed(entity),
            before.entity_mask(entity) != mask,
            mid.left(before, entity),
            mid.index() == before.index(),
            !mid.placed(entity),
            forall|other: Entity| #![trigger mid.alive(other)] mid.alive(other)
                == before.alive(other),
            self.relocated(mid, entity, mask),
        ensures
            self.relocated(before, entity, mask),
    {
        assert(before.entity_table().alive(entity));
        let from = before.location(entity).archetype as int;
        if before.index().contains_key(mask) {
            let target = before.index()[mask] as int;
            assert(before.archetypes()[target].mask() == mask);
            assert(target != from);
            assert(mid.counts()[target] == before.counts()[target]);
        }
        assert(mid.arrival(mask) == before.arrival(mask));
        assert forall|other: Entity|
            #![trigger self.location(other)]
            other != entity && before.alive(other) implies self.location(other)
            == before.after_leaving(entity, other) by {
            assert(mid.alive(other));
            assert(mid.location(other) == before.after_leaving(entity, other));
        }
        assert forall|i: int| 0 <= i < self.archetypes().len() implies #[trigger] self.counts()[i]
            == (if i < before.archetypes().len() {
            before.counts()[i]
        } else {
            0
        }) - (if before.placed(entity) && i == before.location(entity).archetype {
            1nat
        } else {
            0
        }) + (if i == before.arrival(mask).archetype {
            1nat
        } else {
            0
        }) by {
            if i < mid.archetypes().len() {
                assert(mid.counts()[i] == before.counts()[i] - (if before.placed(entity) && i
                    == before.location(entity).archetype {
                    1nat
                } else {
                    0
                }));
            }
        }
    }

    /// A bundle with one value of a registered type matches the bit of that
    /// type.
    proof fn lemma_single_matches(&self, bundle: &Bundle, id: ComponentId)
        requires
            self.registry_wf(),
            self.registry().contains_key(id),
            bundle.wf(),
            bundle.values().dom() =~= set![id],
            bundle.infos()[id] == self.info(id),
        ensures
            self.bundle_matches(bundle, self.bit(id)),
    {
        let position = self.registry()[id].position;
        assert forall|k: u8| self.type_count() <= k < 64 implies !crate::bits::overlaps(
            self.bit(id),
            #[trigger] crate::bits::bit(k),
        ) by {
            crate::bits::lemma_bit(position, k);
        }
        assert forall|other: ComponentId|
            #![trigger bundle.has(other)]
            #![trigger self.registry().contains_key(other)]
            bundle.has(other) <==> (self.registry().contains_key(other) && crate::bits::overlaps(
                self.bit(id),
                self.bit(other),
            )) by {
            assert(bundle.has(other) <==> bundle.values().dom().contains(other));
            if self.registry().contains_key(other) {
                crate::bits::lemma_bit(position, self.registry()[other].position);
            }
        }
    }

    /// A bundle that matches a bitmask matches the bitmask with one more bit
    /// once a value of that bit's type is added.
    proof fn lemma_grown_matches(
        &self,
        bundle: &Bundle,
        grown: &Bundle,
        mask: u64,
        id: ComponentId,
    )
        requires
            self.registry_wf(),
            self.registry().contains_key(id),
            self.bundle_matches(bundle, mask),
            !bundle.has(id),
            grown.values().dom() =~= bundle.values().dom().insert(id),
            grown.infos() == bundle.infos().insert(id, self.info(id)),
        ensures
            self.bundle_matches(grown, mask | self.bit(id)),
    {
        let position = self.registry()[id].position;
        let bit = self.bit(id);
        assert forall|k: u8| self.type_count() <= k < 64 implies !crate::bits::overlaps(
            mask | bit,
            #[trigger] crate::bits::bit(k),
        ) by {
            crate::bits::lemma_bit(position, k);
            crate::bits::lemma_union(mask, bit, crate::bits::bit(k));
        }
        assert forall|other: ComponentId|
            #![trigger grown.has(other)]
            #![trigger self.registry().contains_key(other)]
            grown.has(other) <==> (self.registry().contains_key(other) && crate::bits::overlaps(
                mask | bit,
                self.bit(other),
            )) by {
            assert(grown.has(other) <==> grown.values().dom().contains(other));
            assert(bundle.has(other) <==> bundle.values().dom().contains(other));
            if self.registry().contains_key(other) {
                crate::bits::lemma_bit(position, self.registry()[other].position);
                crate::bits::lemma_union(mask, bit, self.bit(other));
            }
        }
        assert forall|other: ComponentId| #[trigger] grown.has(other) implies grown.infos()[other]
            == self.info(other) by {
            assert(grown.has(other) <==> grown.values().dom().contains(other));
            assert(bundle.has(other) <==> bundle.values().dom().contains(other));
        }
    }

    /// A bundle that matches a bitmask matches the bitmask without one bit
    /// once the value of that bit's type is taken out.
    proof fn lemma_shrunk_matches(
        &self,
        bundle: &Bundle,
        shrunk: &Bundle,
        mask: u64,
        id: ComponentId,
    )
        requires
            self.registry_wf(),
            self.registry().contains_key(id),
            self.bundle_matches(bundle, mask),
            shrunk.values().dom() =~= bundle.values().dom().remove(id),
            shrunk.infos() == bundle.infos().remove(id),
        ensures
            self.bundle_matches(shrunk, mask & !self.bit(id)),
    {
        let position = self.registry()[id].position;
        let bit = self.bit(id);
        assert forall|k: u8| self.type_count() <= k < 64 implies !crate::bits::overlaps(
            mask & !bit,
            #[trigger] crate::bits::bit(k),
        ) by {
            crate::bits::lemma_without(mask, position, k);
        }
        assert forall|other: ComponentId|
            #![trigger shrunk.has(other)]
            #![trigger self.registry().contains_key(other)]
            shrunk.has(other) <==> (self.registry().contains_key(other) && crate::bits::overlaps(
                mask & !bit,
                self.bit(other),
            )) by {
            assert(shrunk.has(other) <==> shrunk.values().dom().contains(other));
            assert(bundle.has(other) <==> bundle.values().dom().contains(other));
            if self.registry().contains_key(other) {
                crate::bits::lemma_without(mask, position, self.registry()[other].position);
            }
        }
        assert forall|other: ComponentId| #[trigger] shrunk.has(other) implies shrunk.infos()[other]
            == self.info(other) by {
            assert(shrunk.has(other) <==> shrunk.values().dom().contains(other));
            assert(bundle.has(other) <==> bundle.values().dom().contains(other));
        }
    }

    /// An entity whose archetype has no bit but that of one type has no
    /// component but the one of that type.
    proof fn lemma_only_component(&self, entity: Entity, id: ComponentId)
        requires
            self.wf(),
            self.placed(entity),
            self.registry().contains_key(id),
            (self.archetypes()[self.location(entity).archetype as int].mask() & !self.bit(id)) == 0,
        ensures
            forall|other: ComponentId|
                self.components(entity).contains_key(other) ==> other == id,
    {
        let archetype = self.archetypes()[self.location(entity).archetype as int];
        assert(self.entity_table().alive(entity));
        assert(self.archetype_wf(archetype));
        assert forall|other: ComponentId|
            self.components(entity).contains_key(other) implies other == id by {
            assert(archetype.has(other));
            assert(self.registry().contains_key(other));
            if other != id {
                assert(self.registry()[id].position != self.registry()[other].position);
                crate::bits::lemma_without(
                    archetype.mask(),
                    self.registry()[id].position,
                    self.registry()[other].position,
                );
                crate::bits::lemma_empty(self.bit(other));
                assert(crate::bits::overlaps(archetype.mask(), self.bit(other)));
            }
        }
    }
}

} // verus!
