//! What holds of every well-formed world, and of sequences of operations on
//! one.
//!
//! The operations of [`World`] keep [`World::wf`] and establish the relations
//! [`World::spawned`], [`World::inserted`], [`World::removed`] and
//! [`World::despawned`] between the world before and after. The lemmas here
//! draw the consequences.

use vstd::prelude::*;
use crate::cache::CacheEntry;
use crate::component::ComponentId;
use crate::entities::{Entity, Location};
use crate::world::World;

verus! {

/// A live entity is either without a row, or the row recorded for it holds
/// just this entity.
pub proof fn lemma_entity_is_in_its_row(world: World, entity: Entity)
    requires
        world.wf(),
        world.alive(entity),
    ensures
        world.location(entity) == Location::spec_empty() || {
            let location = world.location(entity);
            &&& location.archetype < world.archetypes().len()
            &&& location.row < world.archetypes()[location.archetype as int].rows().len()
            &&& world.archetypes()[location.archetype as int].rows()[location.row as int]
                == entity
        },
{
    assert(world.entity_table().alive(entity));
}

/// The entity in a row is alive and records that row as its location, so no
/// entity is in two rows.
pub proof fn lemma_row_holds_its_entity(world: World, index: int, row: int)
    requires
        world.wf(),
        0 <= index < world.archetypes().len(),
        0 <= row < world.archetypes()[index].rows().len(),
    ensures
        world.alive(world.archetypes()[index].rows()[row]),
        world.location(world.archetypes()[index].rows()[row]).archetype == index,
        world.location(world.archetypes()[index].rows()[row]).row == row,
{
    let entity = world.archetypes()[index].rows()[row];
}

/// In every archetype the recorded count, the number of rows and the length
/// of every column are the same.
pub proof fn lemma_columns_match_rows(world: World, index: int)
    requires
        world.wf(),
        0 <= index < world.archetypes().len(),
    ensures
        world.archetypes()[index].spec_count() == world.archetypes()[index].rows().len(),
        forall|id: ComponentId| #[trigger]
            world.archetypes()[index].has(id) ==> world.archetypes()[index].table()[id].len()
                == world.archetypes()[index].rows().len(),
{
    let archetype = world.archetypes()[index];
    assert(world.archetype_wf(archetype));
    archetype.lemma_wf();
}

/// The bits of the bitmask of an archetype are exactly the bits of the
/// component types it has a column for: a bit is set if and only if its
/// position belongs to a registered type and the archetype has the column of
/// that type; and every column belongs to a registered type.
pub proof fn lemma_bitmask_is_columns(world: World, index: int)
    requires
        world.wf(),
        0 <= index < world.archetypes().len(),
    ensures
        forall|k: u8|
            k < 64 ==> (crate::bits::overlaps(
                world.archetypes()[index].mask(),
                #[trigger] crate::bits::bit(k),
            ) <==> (k < world.type_count() && world.archetypes()[index].has(
                world.type_ids()[k as int],
            ))),
        forall|id: ComponentId| #[trigger]
            world.archetypes()[index].has(id) ==> world.registered(id)
                && world.type_ids()[world.registry()[id].position as int]
                == id,
{
    let archetype = world.archetypes()[index];
    assert(world.archetype_wf(archetype));
    assert forall|k: u8| k < 64 implies (crate::bits::overlaps(
        archetype.mask(),
        #[trigger] crate::bits::bit(k),
    ) <==> (k < world.type_count() && archetype.has(world.type_ids()[k as int]))) by {
        if k < world.type_count() {
            let id = world.type_ids()[k as int];
            assert(world.registry().contains_key(id));
            assert(world.bit(id) == crate::bits::bit(k));
        }
    }
    assert forall|id: ComponentId| #[trigger] archetype.has(id) implies world.registered(id)
        && world.type_ids()[world.registry()[id].position as int] == id by {
        assert(world.registry().contains_key(id));
        let k = world.registry()[id].position as int;
        let other = world.type_ids()[k];
        assert(world.registry().contains_key(other));
    }
}

/// Every slot of the entity table is either in use or on the free list,
/// never both; the free list names existing slots and none twice. A handle is
/// alive exactly when its slot has its generation and is not on the free
/// list.
pub proof fn lemma_slots_are_live_or_free(world: World, index: usize)
    requires
        world.wf(),
        index < world.entity_table().metas().len(),
    ensures
        world.entity_table().metas()[index as int].live
            != world.entity_table().free_list().contains(
            index,
        ),
        world.entity_table().free_list().no_duplicates(),
        forall|k: int|
            0 <= k < world.entity_table().free_list().len() ==> (
            #[trigger] world.entity_table().free_list()[k]) < world.entity_table().metas().len(),
        forall|generation: usize|
            world.alive(Entity { index, generation })
                <==> (world.entity_table().metas()[index as int].generation
                == generation && !world.entity_table().free_list().contains(index)),
{
}

/// An archetype that a cached query has examined is in its match list if and
/// only if it has all required bits and none of the excluded ones; the list
/// names no archetype twice.
pub proof fn lemma_cache_lists_the_matches(world: World, key: (u64, u64), index: usize)
    requires
        world.wf(),
        world.cache_entries().contains_key(key),
        index < world.cache_entries()[key].high_water_mark,
    ensures
        world.cache_entries()[key].high_water_mark <= world.archetypes().len(),
        world.cache_entries()[key].archetypes@.contains(index) <==> crate::cache::matches(
            world.archetypes()[index as int].mask(),
            key.0,
            key.1,
        ),
        world.cache_entries()[key].archetypes@.no_duplicates(),
{
    let entry: CacheEntry = world.cache_entries()[key];
    assert(entry.valid_for(world.masks(), key.0, key.1));
    crate::cache::lemma_matching(world.masks(), key.0, key.1, entry.high_water_mark as int);
}

/// After a component was inserted, the entity has it, with the bytes that
/// were given.
pub proof fn lemma_insert_then_get(
    before: World,
    after: World,
    entity: Entity,
    id: ComponentId,
    bytes: Seq<u8>,
)
    requires
        after.inserted(&before, entity, id, bytes),
    ensures
        after.components(entity).contains_key(id),
        after.components(entity)[id] == bytes,
{
}

/// Of two insertions of the same component type, the second one counts: the
/// entity ends up as if only it had been made.
pub proof fn lemma_insert_twice(
    before: World,
    between: World,
    after: World,
    entity: Entity,
    id: ComponentId,
    first: Seq<u8>,
    second: Seq<u8>,
)
    requires
        between.inserted(&before, entity, id, first),
        after.inserted(&between, entity, id, second),
    ensures
        after.components(entity)[id] == second,
        after.components(entity) == before.components(entity).insert(id, second),
{
    assert(after.components(entity) =~= before.components(entity).insert(id, second));
}

/// After a component was inserted and removed again, the entity does not
/// have it, and its other components are those from before the insertion.
pub proof fn lemma_insert_then_remove(
    before: World,
    between: World,
    after: World,
    entity: Entity,
    id: ComponentId,
    bytes: Seq<u8>,
)
    requires
        between.inserted(&before, entity, id, bytes),
        after.removed(&between, entity, id),
    ensures
        !after.components(entity).contains_key(id),
        after.components(entity) == before.components(entity).remove(id),
{
    assert(after.components(entity) =~= before.components(entity).remove(id));
}

/// After an entity was spawned and despawned again, every archetype has as
/// many rows as before the spawn, and an archetype that the spawn created has
/// none.
pub proof fn lemma_spawn_then_despawn(
    before: World,
    between: World,
    after: World,
    entity: Entity,
    values: Map<ComponentId, Seq<u8>>,
    mask: u64,
)
    requires
        between.spawned(&before, entity, values, mask),
        after.despawned(&between, entity),
    ensures
        after.archetypes().len() == between.archetypes().len(),
        forall|i: int|
            0 <= i < after.archetypes().len() ==> #[trigger] after.counts()[i] == if i
                < before.archetypes().len() {
                before.counts()[i]
            } else {
                0
            },
{
    assert forall|i: int| 0 <= i < after.archetypes().len() implies #[trigger] after.counts()[i]
        == if i < before.archetypes().len() {
        before.counts()[i]
    } else {
        0
    } by {
        assert(after.counts()[i] == between.counts()[i] - (if between.placed(entity) && i
            == between.location(entity).archetype {
            1nat
        } else {
            0
        }));
    }
}

/// The entity spawned right after a despawn gets the slot of the despawned
/// one with the next generation, and the old handle stays dead.
pub proof fn lemma_despawn_then_spawn(
    before: World,
    between: World,
    after: World,
    old_entity: Entity,
    new_entity: Entity,
    values: Map<ComponentId, Seq<u8>>,
    mask: u64,
)
    requires
        before.alive(old_entity),
        between.despawned(&before, old_entity),
        after.spawned(&between, new_entity, values, mask),
    ensures
        new_entity.index == old_entity.index,
        new_entity.generation == old_entity.generation + 1,
        !after.alive(old_entity),
        after.alive(new_entity),
{
    let free = between.entity_table().free_list();
    assert(free[free.len() - 1] == old_entity.index);
}

/// A handle that is not alive has no components, so reading through it finds
/// nothing.
pub proof fn lemma_dead_handles_have_nothing(world: World, entity: Entity, id: ComponentId)
    requires
        !world.alive(entity),
    ensures
        !world.components(entity).contains_key(id),
{
}

/// A walk over an ascending list of archetypes visits every row of every
/// listed archetype exactly once: the rows from a position of the list on
/// hold no row twice, and hold a row if and only if its archetype is listed
/// from that position on and has that row.
pub proof fn lemma_rows_once(counts: Seq<nat>, matching: Seq<usize>, cursor: int)
    requires
        0 <= cursor <= matching.len(),
        forall|i: int, j: int| 0 <= i < j < matching.len() ==> matching[i] < matching[j],
        forall|k: int| 0 <= k < matching.len() ==> counts[(#[trigger] matching[k]) as int] <= usize::MAX,
    ensures
        crate::query::rows_from(counts, matching, cursor, 0).no_duplicates(),
        forall|index: usize, row: usize|
            crate::query::rows_from(counts, matching, cursor, 0).contains((index, row)) <==> (
            exists|k: int| cursor <= k < matching.len() && matching[k] == index) && row
                < counts[index as int],
    decreases matching.len() - cursor,
{
    let rows = crate::query::rows_from(counts, matching, cursor, 0);
    if cursor < matching.len() {
        let index = matching[cursor];
        let count = counts[index as int];
        let here = crate::query::rows_of(index, count);
        let later = crate::query::rows_from(counts, matching, cursor + 1, 0);
        crate::query::lemma_rows_of(counts, matching, cursor, 0);
        assert(here.skip(0) =~= here);
        assert(rows == here + later);
        lemma_rows_once(counts, matching, cursor + 1);
        assert forall|i: int, j: int| 0 <= i < rows.len() && 0 <= j < rows.len() && i
            != j implies rows[i] != rows[j] by {
            if i < count && j >= count {
                let (a, r) = later[j - count];
                assert(later[j - count] == (a, r));
                assert(later.contains((a, r)));
                let k = choose|k: int| cursor + 1 <= k < matching.len() && matching[k] == a;
                assert(matching[cursor] < matching[k]);
            } else if j < count && i >= count {
                let (a, r) = later[i - count];
                assert(later[i - count] == (a, r));
                assert(later.contains((a, r)));
                let k = choose|k: int| cursor + 1 <= k < matching.len() && matching[k] == a;
                assert(matching[cursor] < matching[k]);
            } else if i >= count && j >= count {
                assert(later[i - count] != later[j - count]);
            }
        }
        assert forall|a: usize, row: usize| rows.contains((a, row)) <==> (exists|k: int|
            cursor <= k < matching.len() && matching[k] == a) && row < counts[a as int] by {
            if rows.contains((a, row)) {
                let p = choose|p: int| 0 <= p < rows.len() && rows[p] == (a, row);
                if p < count {
                    assert(matching[cursor] == a);
                } else {
                    assert(later[p - count] == (a, row));
                    assert(later.contains((a, row)));
                    let k = choose|k: int| cursor + 1 <= k < matching.len() && matching[k] == a;
                    assert(cursor <= k < matching.len() && matching[k] == a);
                }
            }
            if (exists|k: int| cursor <= k < matching.len() && matching[k] == a) && row
                < counts[a as int] {
                let k = choose|k: int| cursor <= k < matching.len() && matching[k] == a;
                if k == cursor {
                    assert(rows[row as int] == (a, row));
                } else {
                    assert(cursor + 1 <= k < matching.len() && matching[k] == a);
                    assert(later.contains((a, row)));
                    let p = choose|p: int| 0 <= p < later.len() && later[p] == (a, row);
                    assert(rows[count + p] == (a, row));
                }
            }
        }
    }
}

/// A walk that a query starts visits exactly the rows of the archetypes that
/// match the query, each once.
pub proof fn lemma_query_visits_matching_rows(
    world: World,
    matching: Seq<usize>,
    required: u64,
    excluded: u64,
)
    requires
        world.wf(),
        matching == crate::cache::matching(
            world.masks(),
            required,
            excluded,
            world.archetypes().len() as int,
        ),
    ensures
        crate::query::rows_from(world.counts(), matching, 0, 0).no_duplicates(),
        forall|index: usize, row: usize|
            crate::query::rows_from(world.counts(), matching, 0, 0).contains((index, row)) <==> (
            index < world.archetypes().len() && crate::cache::matches(
                world.archetypes()[index as int].mask(),
                required,
                excluded,
            ) && row < world.archetypes()[index as int].rows().len()),
{
    let n = world.archetypes().len() as int;
    let counts = world.counts();
    crate::cache::lemma_matching(world.masks(), required, excluded, n);
    assert forall|k: int| 0 <= k < matching.len() implies counts[(#[trigger] matching[k]) as int]
        <= usize::MAX by {
        let archetype = world.archetypes()[matching[k] as int];
        assert(world.archetype_wf(archetype));
        archetype.lemma_wf();
    }
    lemma_rows_once(counts, matching, 0);
    assert forall|index: usize, row: usize|
        crate::query::rows_from(counts, matching, 0, 0).contains((index, row)) <==> (index
            < world.archetypes().len() && crate::cache::matches(
            world.archetypes()[index as int].mask(),
            required,
            excluded,
        ) && row < world.archetypes()[index as int].rows().len()) by {
        if exists|k: int| 0 <= k < matching.len() && matching[k] == index {
            assert(matching.contains(index));
        }
        if matching.contains(index) {
            let k = choose|k: int| 0 <= k < matching.len() && matching[k] == index;
            assert(0 <= k < matching.len() && matching[k] == index);
        }
    }
}

} // verus!
