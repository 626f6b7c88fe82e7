//! Cross-block execution cache keyed on `(tx_hash, pre_state_root)`.
//!
//! Caches the `(gas_used, success)` outcome of idempotent executions so an
//! identical transaction against an identical pre-state need not run again.
//! At capacity, inserting evicts an entry whose `last_used_height` is
//! smallest.

use vstd::prelude::*;
use crate::hashing::{blake3_digest, blake3_hash, bytes32_eq};

verus! {

/// What the cache remembers about one execution.
#[derive(Clone, Copy, PartialEq, Eq, Debug)]
pub struct CachedResult {
    pub gas_used: u64,
    pub success: bool,
    pub last_used_height: u64,
}

struct CacheEntry {
    key: [u8; 32],
    result: CachedResult,
}

/// Bounded cache from `blake3(tx_hash ‖ pre_state_root)` to an execution outcome.
pub struct ExecutionCache {
    entries: Vec<CacheEntry>,
    max_size: usize,
}

/// The cache key of a transaction hash under a pre-state root.
pub open spec fn spec_cache_key(tx_hash: Seq<u8>, pre_state_root: Seq<u8>) -> Seq<u8> {
    blake3_digest(tx_hash + pre_state_root)
}

/// Keys of a sequence of entries, as byte strings.
spec fn keys_of(entries: Seq<CacheEntry>) -> Seq<Seq<u8>> {
    entries.map_values(|e: CacheEntry| e.key@)
}

/// The map that a sequence of entries with distinct keys stands for.
spec fn map_of(entries: Seq<CacheEntry>) -> Map<Seq<u8>, CachedResult>
    decreases entries.len(),
{
    if entries.len() == 0 {
        Map::empty()
    } else {
        map_of(entries.drop_last()).insert(entries.last().key@, entries.last().result)
    }
}

/// `key` is in the map of `old` with the least `last_used_height`.
pub open spec fn is_oldest(m: Map<Seq<u8>, CachedResult>, key: Seq<u8>) -> bool {
    &&& m.contains_key(key)
    &&& forall|k: Seq<u8>| #[trigger] m.contains_key(k) ==> m[key].last_used_height <= m[k].last_used_height
}

proof fn lemma_map_of_dom(entries: Seq<CacheEntry>)
    ensures
        forall|k: Seq<u8>| #[trigger] map_of(entries).contains_key(k) <==> keys_of(entries).contains(k),
        map_of(entries).dom().finite(),
    decreases entries.len(),
{
    if entries.len() > 0 {
        let init = entries.drop_last();
        lemma_map_of_dom(init);
        assert(keys_of(entries) =~= keys_of(init).push(entries.last().key@));
        assert forall|k: Seq<u8>| #[trigger] map_of(entries).contains_key(k) implies keys_of(entries).contains(k) by {
            if k == entries.last().key@ {
                assert(keys_of(entries)[entries.len() - 1] == k);
            } else {
                assert(map_of(init).contains_key(k));
                let j = choose|j: int| 0 <= j < keys_of(init).len() && keys_of(init)[j] == k;
                assert(keys_of(entries)[j] == k);
            }
        }
        assert forall|k: Seq<u8>| keys_of(entries).contains(k) implies #[trigger] map_of(entries).contains_key(k) by {
            let j = choose|j: int| 0 <= j < keys_of(entries).len() && keys_of(entries)[j] == k;
            if j < init.len() {
                assert(keys_of(init)[j] == k);
                assert(map_of(init).contains_key(k));
            }
        }
    } else {
        assert(map_of(entries) =~= Map::empty());
    }
}

/// With distinct keys, entry `i` is what the map holds for its key.
proof fn lemma_map_of_index(entries: Seq<CacheEntry>, i: int)
    requires
        0 <= i < entries.len(),
        keys_of(entries).no_duplicates(),
    ensures
        map_of(entries).contains_key(entries[i].key@),
        map_of(entries)[entries[i].key@] == entries[i].result,
    decreases entries.len(),
{
    let init = entries.drop_last();
    if i < entries.len() - 1 {
        assert(keys_of(init) =~= keys_of(entries).drop_last());
        assert(keys_of(init).no_duplicates());
        lemma_map_of_index(init, i);
        assert(keys_of(entries)[i] != keys_of(entries)[entries.len() - 1]);
    }
}

/// The map after removing entry `i` (keys distinct) is the old map without its key.
proof fn lemma_map_of_remove(entries: Seq<CacheEntry>, i: int)
    requires
        0 <= i < entries.len(),
        keys_of(entries).no_duplicates(),
    ensures
        map_of(entries.remove(i)) =~= map_of(entries).remove(entries[i].key@),
        keys_of(entries.remove(i)).no_duplicates(),
    decreases entries.len(),
{
    let r = entries.remove(i);
    assert(keys_of(r) =~= keys_of(entries).remove(i));
    lemma_map_of_dom(entries);
    lemma_map_of_dom(r);
    let k_i = entries[i].key@;
    assert forall|a: int, b: int| 0 <= a < b < keys_of(r).len() implies keys_of(r)[a] != keys_of(r)[b] by {
        let a2 = if a < i { a } else { a + 1 };
        let b2 = if b < i { b } else { b + 1 };
        assert(keys_of(r)[a] == keys_of(entries)[a2]);
        assert(keys_of(r)[b] == keys_of(entries)[b2]);
    }
    assert forall|k: Seq<u8>| #[trigger] map_of(r).contains_key(k) implies map_of(r)[k] == map_of(entries)[k] && k != k_i by {
        let j = choose|j: int| 0 <= j < keys_of(r).len() && keys_of(r)[j] == k;
        lemma_map_of_index(r, j);
        let j2 = if j < i { j } else { j + 1 };
        assert(r[j] == entries[j2]);
        lemma_map_of_index(entries, j2);
        assert(keys_of(entries)[j2] != keys_of(entries)[i]);
    }
    assert forall|k: Seq<u8>| #[trigger] map_of(entries).contains_key(k) && k != k_i implies map_of(r).contains_key(k) by {
        let j = choose|j: int| 0 <= j < keys_of(entries).len() && keys_of(entries)[j] == k;
        assert(j != i);
        let j2 = if j < i { j } else { j - 1 };
        assert(keys_of(r)[j2] == k);
    }
}

/// Replacing entry `i` by one with the same key updates that key's value.
proof fn lemma_map_of_update(entries: Seq<CacheEntry>, i: int, e: CacheEntry)
    requires
        0 <= i < entries.len(),
        keys_of(entries).no_duplicates(),
        e.key@ == entries[i].key@,
    ensures
        map_of(entries.update(i, e)) =~= map_of(entries).insert(e.key@, e.result),
        keys_of(entries.update(i, e)).no_duplicates(),
{
    let u = entries.update(i, e);
    assert(keys_of(u) =~= keys_of(entries));
    lemma_map_of_dom(entries);
    lemma_map_of_dom(u);
    let target = map_of(entries).insert(e.key@, e.result);
    assert forall|k: Seq<u8>| #[trigger] map_of(u).contains_key(k) <==> target.contains_key(k) by {
        if k == e.key@ {
            assert(keys_of(entries)[i] == k);
        }
    }
    assert forall|k: Seq<u8>| #[trigger] map_of(u).contains_key(k) implies map_of(u)[k] == target[k] by {
        let j = choose|j: int| 0 <= j < keys_of(u).len() && keys_of(u)[j] == k;
        lemma_map_of_index(u, j);
        if j != i {
            lemma_map_of_index(entries, j);
            assert(keys_of(entries)[j] != keys_of(entries)[i]);
        }
    }
}

impl ExecutionCache {
    /// Entries hold distinct keys, no more of them than the capacity (a
    /// cache of capacity zero holds at most one).
    pub closed spec fn wf(&self) -> bool {
        &&& keys_of(self.entries@).no_duplicates()
        &&& self.entries@.len() <= if self.max_size > 0 { self.max_size as int } else { 1 }
    }

    /// The cached outcomes, by cache key.
    pub closed spec fn view(&self) -> Map<Seq<u8>, CachedResult> {
        map_of(self.entries@)
    }

    /// A well-formed cache holds finitely many outcomes, no more than its
    /// capacity (one for a cache of capacity zero).
    pub proof fn lemma_view_finite(&self)
        requires
            self.wf(),
        ensures
            self.view().dom().finite(),
            self.view().len() <= if self.capacity() > 0 { self.capacity() } else { 1 },
    {
        lemma_map_of_dom(self.entries@);
        keys_of(self.entries@).unique_seq_to_set();
        assert(self.view().dom() =~= keys_of(self.entries@).to_set());
    }

    /// The capacity the cache was made with.
    pub closed spec fn capacity(&self) -> nat {
        self.max_size as nat
    }

    /// An empty cache holding at most `max_size` entries before evicting.
    pub fn new(max_size: usize) -> (cache: Self)
        ensures
            cache.wf(),
            cache.view() == Map::<Seq<u8>, CachedResult>::empty(),
            cache.capacity() == max_size,
    {
        let cache = ExecutionCache { entries: Vec::new(), max_size };
        assert(keys_of(cache.entries@) =~= Seq::<Seq<u8>>::empty());
        assert(cache.view() =~= Map::<Seq<u8>, CachedResult>::empty());
        cache
    }

    fn cache_key(tx_hash: &[u8; 32], pre_state_root: &[u8; 32]) -> (key: [u8; 32])
        ensures
            key@ == spec_cache_key(tx_hash@, pre_state_root@),
    {
        let mut data: Vec<u8> = Vec::with_capacity(64);
        let mut i: usize = 0;
        while i < 32
            invariant
                0 <= i <= 32,
                tx_hash@.len() == 32,
                data@ == tx_hash@.subrange(0, i as int),
            decreases 32 - i,
        {
            data.push(tx_hash[i]);
            i = i + 1;
        }
        let mut j: usize = 0;
        while j < 32
            invariant
                0 <= j <= 32,
                tx_hash@.len() == 32,
                pre_state_root@.len() == 32,
                data@ == tx_hash@ + pre_state_root@.subrange(0, j as int),
            decreases 32 - j,
        {
            data.push(pre_state_root[j]);
            j = j + 1;
        }
        assert(tx_hash@.subrange(0, 32) =~= tx_hash@);
        assert(pre_state_root@.subrange(0, 32) =~= pre_state_root@);
        blake3_hash(data.as_slice())
    }

    /// Index of the entry with `key`, if any.
    fn find(&self, key: &[u8; 32]) -> (idx: Option<usize>)
        requires
            self.wf(),
        ensures
            match idx {
                Some(i) => i < self.entries@.len() && self.entries@[i as int].key@ == key@,
                None => !self.view().contains_key(key@),
            },
    {
        let mut i: usize = 0;
        while i < self.entries.len()
            invariant
                0 <= i <= self.entries@.len(),
                forall|j: int| 0 <= j < i ==> self.entries@[j].key@ != key@,
            decreases self.entries@.len() - i,
        {
            if bytes32_eq(&self.entries[i].key, key) {
                return Some(i);
            }
            i = i + 1;
        }
        proof {
            lemma_map_of_dom(self.entries@);
            if keys_of(self.entries@).contains(key@) {
                let j = choose|j: int| 0 <= j < keys_of(self.entries@).len() && keys_of(self.entries@)[j] == key@;
                assert(self.entries@[j].key@ == key@);
            }
        }
        None
    }

    /// The cached `(gas_used, success)` for this transaction under this pre-state, if any.
    pub fn get(&self, tx_hash: &[u8; 32], pre_state_root: &[u8; 32]) -> (r: Option<(u64, bool)>)
        requires
            self.wf(),
        ensures
            ({
                let key = spec_cache_key(tx_hash@, pre_state_root@);
                r == if self.view().contains_key(key) {
                    Some((self.view()[key].gas_used, self.view()[key].success))
                } else {
                    None::<(u64, bool)>
                }
            }),
    {
        let key = Self::cache_key(tx_hash, pre_state_root);
        match self.find(&key) {
            Some(i) => {
                proof { lemma_map_of_index(self.entries@, i as int); }
                let res = &self.entries[i].result;
                Some((res.gas_used, res.success))
            },
            None => None,
        }
    }

    /// Index of an entry with the least `last_used_height` (the first such one).
    fn oldest_index(&self) -> (idx: usize)
        requires
            self.wf(),
            self.entries@.len() > 0,
        ensures
            idx < self.entries@.len(),
            is_oldest(self.view(), self.entries@[idx as int].key@),
    {
        let mut best: usize = 0;
        let mut i: usize = 1;
        while i < self.entries.len()
            invariant
                1 <= i <= self.entries@.len(),
                best < i,
                forall|j: int| 0 <= j < i ==> self.entries@[best as int].result.last_used_height
                    <= #[trigger] self.entries@[j].result.last_used_height,
            decreases self.entries@.len() - i,
        {
            if self.entries[i].result.last_used_height < self.entries[best].result.last_used_height {
                best = i;
            }
            i = i + 1;
        }
        proof {
            lemma_map_of_dom(self.entries@);
            lemma_map_of_index(self.entries@, best as int);
            assert forall|k: Seq<u8>| #[trigger] self.view().contains_key(k) implies
                self.view()[self.entries@[best as int].key@].last_used_height <= self.view()[k].last_used_height by {
                let j = choose|j: int| 0 <= j < keys_of(self.entries@).len() && keys_of(self.entries@)[j] == k;
                lemma_map_of_index(self.entries@, j);
            }
        }
        best
    }

    /// Record the outcome of executing `tx_hash` against `pre_state_root` at
    /// `height`. When the cache already holds `capacity` entries or more, one
    /// entry with the least `last_used_height` is evicted first (even when the
    /// key being written is already present).
    pub fn put(&mut self, tx_hash: &[u8; 32], pre_state_root: &[u8; 32], gas_used: u64, success: bool, height: u64)
        requires
            old(self).wf(),
        ensures
            final(self).wf(),
            final(self).capacity() == old(self).capacity(),
            put_effect(old(self).view(), final(self).view(), old(self).capacity(),
                spec_cache_key(tx_hash@, pre_state_root@),
                CachedResult { gas_used, success, last_used_height: height }),
    {
        proof { lemma_map_of_dom(self.entries@); }
        let ghost old_view = self.view();
        let ghost mut evicted: Seq<u8> = Seq::empty();
        proof {
            assert(keys_of(self.entries@).len() == self.entries@.len());
            keys_of(self.entries@).unique_seq_to_set();
            assert(self.view().dom() =~= keys_of(self.entries@).to_set()) by {
                assert forall|k: Seq<u8>| self.view().dom().contains(k) <==> keys_of(self.entries@).to_set().contains(k) by {}
            }
        }
        if self.entries.len() >= self.max_size && self.entries.len() > 0 {
            let idx = self.oldest_index();
            proof {
                evicted = self.entries@[idx as int].key@;
                lemma_map_of_remove(self.entries@, idx as int);
            }
            self.entries.remove(idx);
        }
        let ghost mid_view = self.view();
        let key = Self::cache_key(tx_hash, pre_state_root);
        let value = CachedResult { gas_used, success, last_used_height: height };
        let ghost key_s = key@;
        match self.find(&key) {
            Some(i) => {
                proof { lemma_map_of_update(self.entries@, i as int, CacheEntry { key, result: value }); }
                self.entries.set(i, CacheEntry { key, result: value });
            },
            None => {
                let ghost before = self.entries@;
                proof { lemma_map_of_dom(before); }
                self.entries.push(CacheEntry { key, result: value });
                proof {
                    assert(self.entries@.drop_last() =~= before);
                    assert(keys_of(self.entries@) =~= keys_of(before).push(key_s));
                    assert(!keys_of(before).contains(key_s));
                    assert forall|a: int, b: int| 0 <= a < b < keys_of(self.entries@).len() implies
                        keys_of(self.entries@)[a] != keys_of(self.entries@)[b] by {
                        if b == keys_of(before).len() {
                            assert(keys_of(before)[a] == keys_of(self.entries@)[a]);
                        }
                    }
                }
            },
        }
        proof {
            if old_view.len() >= self.max_size && old_view.len() > 0 {
                assert(self.view() == old_view.remove(evicted).insert(key_s, value));
                assert(is_oldest(old_view, evicted));
            }
        }
    }

    /// Number of cached entries.
    pub fn len(&self) -> (n: usize)
        requires
            self.wf(),
        ensures
            n == self.view().len(),
    {
        proof {
            lemma_map_of_dom(self.entries@);
            keys_of(self.entries@).unique_seq_to_set();
            assert(self.view().dom() =~= keys_of(self.entries@).to_set());
        }
        self.entries.len()
    }

    /// Whether the cache holds no entry.
    pub fn is_empty(&self) -> (b: bool)
        requires
            self.wf(),
        ensures
            b == (self.view().len() == 0),
    {
        self.len() == 0
    }

    /// Drop every entry.
    pub fn clear(&mut self)
        requires
            old(self).wf(),
        ensures
            final(self).wf(),
            final(self).view() == Map::<Seq<u8>, CachedResult>::empty(),
            final(self).capacity() == old(self).capacity(),
    {
        self.entries.clear();
        assert(keys_of(self.entries@) =~= Seq::<Seq<u8>>::empty());
        assert(self.view() =~= Map::<Seq<u8>, CachedResult>::empty());
    }
}

/// What `put` of `value` under `key` does to a cache holding `before` with
/// capacity `capacity`: at or over capacity (and non-empty) an entry of
/// least height is evicted first; then `key` maps to `value`.
pub open spec fn put_effect(
    before: Map<Seq<u8>, CachedResult>,
    after: Map<Seq<u8>, CachedResult>,
    capacity: nat,
    key: Seq<u8>,
    value: CachedResult,
) -> bool {
    if before.len() >= capacity && before.len() > 0 {
        exists|evicted: Seq<u8>| is_oldest(before, evicted) && after == #[trigger] before.remove(evicted).insert(key, value)
    } else {
        after == before.insert(key, value)
    }
}

/// Read after write: once an outcome is put, getting the same transaction
/// under the same pre-state root returns it.
pub proof fn law_get_after_put(
    before: Map<Seq<u8>, CachedResult>,
    after: Map<Seq<u8>, CachedResult>,
    capacity: nat,
    key: Seq<u8>,
    value: CachedResult,
)
    requires
        put_effect(before, after, capacity, key, value),
    ensures
        after.contains_key(key),
        after[key] == value,
{
    if before.len() >= capacity && before.len() > 0 {
        let evicted = choose|evicted: Seq<u8>| is_oldest(before, evicted) && after == #[trigger] before.remove(evicted).insert(key, value);
    }
}

/// A cache within its capacity stays within it (a cache of capacity zero
/// holds at most the one entry just put).
pub proof fn law_size_bounded(
    before: Map<Seq<u8>, CachedResult>,
    after: Map<Seq<u8>, CachedResult>,
    capacity: nat,
    key: Seq<u8>,
    value: CachedResult,
)
    requires
        before.dom().finite(),
        before.len() <= if capacity > 0 { capacity } else { 1 },
        put_effect(before, after, capacity, key, value),
    ensures
        after.dom().finite(),
        after.len() <= if capacity > 0 { capacity } else { 1 },
{
    if before.len() >= capacity && before.len() > 0 {
        let evicted = choose|evicted: Seq<u8>| is_oldest(before, evicted) && after == #[trigger] before.remove(evicted).insert(key, value);
        let removed = before.remove(evicted);
        assert(removed.len() == before.len() - 1);
        if removed.contains_key(key) {
            assert(after.dom() =~= removed.dom());
        } else {
            assert(after.dom() =~= removed.dom().insert(key));
        }
    } else {
        if before.contains_key(key) {
            assert(after.dom() =~= before.dom());
        } else {
            assert(after.dom() =~= before.dom().insert(key));
        }
    }
}


/// A put evicts at most one entry, and only one used no later than every
/// other: an entry last used after some other entry survives the put
/// unchanged (unless it is the key being put).
pub proof fn law_eviction_spares_newer(
    before: Map<Seq<u8>, CachedResult>,
    after: Map<Seq<u8>, CachedResult>,
    capacity: nat,
    key: Seq<u8>,
    value: CachedResult,
    kept: Seq<u8>,
    older: Seq<u8>,
)
    requires
        put_effect(before, after, capacity, key, value),
        before.contains_key(kept),
        before.contains_key(older),
        before[older].last_used_height < before[kept].last_used_height,
        kept != key,
    ensures
        after.contains_key(kept),
        after[kept] == before[kept],
{
    if before.len() >= capacity && before.len() > 0 {
        let evicted = choose|evicted: Seq<u8>| is_oldest(before, evicted) && after == #[trigger] before.remove(evicted).insert(key, value);
        assert(before[evicted].last_used_height <= before[older].last_used_height);
        assert(evicted != kept);
    }
}

} // verus!
