//! The query cache: which archetypes match a pair of bitmasks.

use vstd::prelude::*;
use std::collections::HashMap;
use std::collections::hash_map::Entry;
use crate::archetype::Archetype;

verus! {

/// An archetype with bitmask `mask` matches a query when it has every
/// required bit and none of the excluded ones.
pub open spec fn matches(mask: u64, required: u64, excluded: u64) -> bool {
    (mask & required) == required && (mask & excluded) == 0
}

/// The indices below `n` of the bitmasks that match, in ascending order.
pub open spec fn matching(masks: Seq<u64>, required: u64, excluded: u64, n: int) -> Seq<usize>
    decreases n,
{
    if n <= 0 {
        Seq::empty()
    } else if matches(masks[n - 1], required, excluded) {
        matching(masks, required, excluded, n - 1).push((n - 1) as usize)
    } else {
        matching(masks, required, excluded, n - 1)
    }
}

/// An index is in the match list exactly when it is below the bound and its
/// bitmask matches. The list is strictly ascending, so no index occurs twice.
pub proof fn lemma_matching(masks: Seq<u64>, required: u64, excluded: u64, n: int)
    requires
        0 <= n <= masks.len(),
        n <= usize::MAX,
    ensures
        forall|a: usize|
            matching(masks, required, excluded, n).contains(a) <==> (a < n && matches(
                masks[a as int],
                required,
                excluded,
            )),
        forall|i: int, j: int|
            0 <= i < j < matching(masks, required, excluded, n).len() ==> matching(
                masks,
                required,
                excluded,
                n,
            )[i] < matching(masks, required, excluded, n)[j],
        forall|i: int|
            0 <= i < matching(masks, required, excluded, n).len() ==> matching(
                masks,
                required,
                excluded,
                n,
            )[i] < n,
    decreases n,
{
    let now = matching(masks, required, excluded, n);
    if n > 0 {
        lemma_matching(masks, required, excluded, n - 1);
        let prev = matching(masks, required, excluded, n - 1);
        let last = (n - 1) as usize;
        assert forall|a: usize| now.contains(a) <==> (a < n && matches(
            masks[a as int],
            required,
            excluded,
        )) by {
            if matches(masks[n - 1], required, excluded) {
                assert(now == prev.push(last));
                assert(now[now.len() - 1] == last);
                if prev.contains(a) {
                    let i = choose|i: int| 0 <= i < prev.len() && prev[i] == a;
                    assert(now[i] == a);
                }
                if now.contains(a) {
                    let i = choose|i: int| 0 <= i < now.len() && now[i] == a;
                    if i < prev.len() {
                        assert(prev[i] == a);
                    }
                }
            }
        }
    }
}

/// What is known beyond a prefix of the bitmasks does not change the match
/// list of that prefix.
pub proof fn lemma_matching_prefix(
    masks: Seq<u64>,
    longer: Seq<u64>,
    required: u64,
    excluded: u64,
    n: int,
)
    requires
        0 <= n <= masks.len() <= longer.len(),
        forall|i: int| 0 <= i < masks.len() ==> masks[i] == longer[i],
    ensures
        matching(masks, required, excluded, n) == matching(longer, required, excluded, n),
    decreases n,
{
    if n > 0 {
        lemma_matching_prefix(masks, longer, required, excluded, n - 1);
    }
}

/// The key under which the cache files a pair of bitmasks.
pub open spec fn cache_key(required: u64, excluded: u64) -> u128 {
    ((required as u128) << 64) | (excluded as u128)
}

/// Different pairs of bitmasks have different keys.
pub proof fn lemma_cache_key_injective(a: u64, b: u64, c: u64, d: u64)
    by (bit_vector)
    ensures
        (((a as u128) << 64) | (b as u128)) == (((c as u128) << 64) | (d as u128)) ==> a == c && b
            == d,
{
}

/// What the cache remembers for one query: how many archetypes have been
/// examined, and which of them matched.
pub struct CacheEntry {
    pub high_water_mark: usize,
    pub archetypes: Vec<usize>,
}

impl CacheEntry {
    /// The entry of a query for which no archetype has been examined yet.
    pub fn new() -> (r: Self)
        ensures
            r.high_water_mark == 0,
            r.archetypes@ == Seq::<usize>::empty(),
    {
        Self { high_water_mark: 0, archetypes: Vec::new() }
    }

    /// The entry is right for the given bitmasks: it has examined no more
    /// archetypes than there are, and it lists exactly the ones among those
    /// examined that match, in ascending order.
    pub open spec fn valid_for(&self, masks: Seq<u64>, required: u64, excluded: u64) -> bool {
        &&& self.high_water_mark <= masks.len()
        &&& self.archetypes@ == matching(masks, required, excluded, self.high_water_mark as int)
    }
}

impl CacheEntry {
    /// Examines the archetypes that were added since the entry was brought
    /// up to date last, and appends the indices of those that match.
    pub fn update(&mut self, archetypes: &Vec<Archetype>, required: u64, excluded: u64)
        requires
            old(self).valid_for(crate::world::masks_of(archetypes@), required, excluded),
        ensures
            final(self).valid_for(crate::world::masks_of(archetypes@), required, excluded),
            final(self).high_water_mark == archetypes@.len(),
    {
        let ghost masks = crate::world::masks_of(archetypes@);
        let mut index: usize = self.high_water_mark;
        while index < archetypes.len()
            invariant
                index <= archetypes@.len(),
                masks == crate::world::masks_of(archetypes@),
                self.archetypes@ == matching(masks, required, excluded, index as int),
            decreases archetypes@.len() - index,
        {
            let mask = archetypes[index].bitmask();
            if (mask & required) == required && (mask & excluded) == 0 {
                self.archetypes.push(index);
            }
            index = index + 1;
        }
        self.high_water_mark = archetypes.len();
    }
}

/// The cached match lists, by required and excluded bitmask.
pub struct QueryCache {
    cache: HashMap<u128, CacheEntry>,
}

impl QueryCache {
    /// The entries of the cache, by `(required, excluded)`.
    pub closed spec fn entries(&self) -> Map<(u64, u64), CacheEntry> {
        Map::new(
            |k: (u64, u64)| self.cache@.contains_key(cache_key(k.0, k.1)),
            |k: (u64, u64)| self.cache@[cache_key(k.0, k.1)],
        )
    }

    /// An empty cache.
    pub fn new() -> (r: Self)
        ensures
            r.entries() == Map::<(u64, u64), CacheEntry>::empty(),
    {
        let r = Self { cache: HashMap::new() };
        assert(r.entries() =~= Map::<(u64, u64), CacheEntry>::empty());
        r
    }

    /// The key under which a pair of bitmasks is filed.
    fn key(required_bitmask: u64, exclusion_bitmask: u64) -> (k: u128)
        ensures
            k == cache_key(required_bitmask, exclusion_bitmask),
    {
        ((required_bitmask as u128) << 64) | (exclusion_bitmask as u128)
    }

    /// Different pairs of bitmasks are filed under different keys.
    proof fn lemma_keys_differ(a: (u64, u64), b: (u64, u64))
        ensures
            a != b ==> cache_key(a.0, a.1) != cache_key(b.0, b.1),
    {
        lemma_cache_key_injective(a.0, a.1, b.0, b.1);
    }

    /// Files an entry for a query, replacing the one it had.
    pub fn insert(
        &mut self,
        required_bitmask: u64,
        exclusion_bitmask: u64,
        high_water_mark: usize,
        archetypes: Vec<usize>,
    )
        ensures
            final(self).entries() == old(self).entries().insert(
                (required_bitmask, exclusion_bitmask),
                (CacheEntry { high_water_mark, archetypes }),
            ),
    {
        broadcast use vstd::std_specs::hash::group_hash_axioms;

        let key = Self::key(required_bitmask, exclusion_bitmask);
        self.cache.insert(key, CacheEntry { high_water_mark, archetypes });
        proof {
            assert forall|k: (u64, u64)| k != (required_bitmask, exclusion_bitmask)
                implies cache_key(
                k.0,
                k.1,
            ) != key by {
                Self::lemma_keys_differ(k, (required_bitmask, exclusion_bitmask));
            }
            assert(self.entries() =~= old(self).entries().insert(
                (required_bitmask, exclusion_bitmask),
                (CacheEntry { high_water_mark, archetypes }),
            ));
        }
    }

    /// The entry filed for a query, if there is one.
    pub fn get(&self, required_bitmask: u64, exclusion_bitmask: u64) -> (r: Option<&CacheEntry>)
        ensures
            r.is_some() == self.entries().contains_key((required_bitmask, exclusion_bitmask)),
            r matches Some(entry) ==> *entry == self.entries()[(
                required_bitmask,
                exclusion_bitmask,
            )],
    {
        broadcast use vstd::std_specs::hash::group_hash_axioms;

        let key = Self::key(required_bitmask, exclusion_bitmask);
        self.cache.get(&key)
    }

    /// Takes the entry filed for a query out of the cache, if there is one.
    pub fn remove(&mut self, required_bitmask: u64, exclusion_bitmask: u64) -> (r: Option<
        CacheEntry,
    >)
        ensures
            r.is_some() == old(self).entries().contains_key((required_bitmask, exclusion_bitmask)),
            r matches Some(entry) ==> entry == old(self).entries()[(
                required_bitmask,
                exclusion_bitmask,
            )],
            final(self).entries() == old(self).entries().remove(
                (required_bitmask, exclusion_bitmask),
            ),
    {
        broadcast use vstd::std_specs::hash::group_hash_axioms;

        let key = Self::key(required_bitmask, exclusion_bitmask);
        let r = self.cache.remove(&key);
        proof {
            assert forall|k: (u64, u64)| k != (required_bitmask, exclusion_bitmask)
                implies cache_key(
                k.0,
                k.1,
            ) != key by {
                Self::lemma_keys_differ(k, (required_bitmask, exclusion_bitmask));
            }
            assert(self.entries() =~= old(self).entries().remove(
                (required_bitmask, exclusion_bitmask),
            ));
        }
        r
    }

    /// The entry filed for a query; if there is none, the one that `f` makes
    /// is filed first.
    pub fn get_or_insert_with<F: FnOnce() -> CacheEntry>(
        &mut self,
        required_bitmask: u64,
        exclusion_bitmask: u64,
        f: F,
    ) -> (r: &mut CacheEntry)
        requires
            f.requires(()),
        ensures
            old(self).entries().contains_key((required_bitmask, exclusion_bitmask)) ==> *r
                == old(self).entries()[(required_bitmask, exclusion_bitmask)],
            !old(self).entries().contains_key((required_bitmask, exclusion_bitmask))
                ==> f.ensures((), *r),
            final(self).entries() == old(self).entries().insert(
                (required_bitmask, exclusion_bitmask),
                *final(r),
            ),
    {
        broadcast use vstd::std_specs::hash::group_hash_axioms;

        let key = Self::key(required_bitmask, exclusion_bitmask);
        proof {
            assert forall|k: (u64, u64)| k != (required_bitmask, exclusion_bitmask)
                implies cache_key(
                k.0,
                k.1,
            ) != key by {
                Self::lemma_keys_differ(k, (required_bitmask, exclusion_bitmask));
            }
        }
        match self.cache.entry(key) {
            Entry::Occupied(occupied) => occupied.into_mut(),
            Entry::Vacant(vacant) => vacant.insert(f()),
        }
    }
}

} // verus!
