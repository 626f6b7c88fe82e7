//! The per-partition state overlay of the parallel executor.
//!
//! Before a partition runs, the state its transactions touch is copied from
//! the base store into an overlay; the partition then runs against the
//! overlay alone, which records the objects it creates and deletes and the
//! ghosts it adds and removes. Afterwards the overlay's changes are written
//! back to the base store in ascending key order, so that every node applies
//! them in the same sequence.

use vstd::prelude::*;
use crate::ledger::Account;
use crate::partition::AccessKey;

verus! {

/// Lexicographic order on byte strings (a proper prefix comes first).
pub open spec fn lex_lt(a: Seq<u8>, b: Seq<u8>) -> bool
    decreases a.len(),
{
    if a.len() == 0 {
        b.len() > 0
    } else if b.len() == 0 {
        false
    } else if a[0] != b[0] {
        a[0] < b[0]
    } else {
        lex_lt(a.drop_first(), b.drop_first())
    }
}

/// No byte string precedes itself.
pub proof fn lemma_lex_irreflexive(a: Seq<u8>)
    ensures
        !lex_lt(a, a),
    decreases a.len(),
{
    if a.len() > 0 {
        lemma_lex_irreflexive(a.drop_first());
    }
}

/// The order is transitive.
pub proof fn lemma_lex_transitive(a: Seq<u8>, b: Seq<u8>, c: Seq<u8>)
    requires
        lex_lt(a, b),
        lex_lt(b, c),
    ensures
        lex_lt(a, c),
    decreases a.len(),
{
    if a.len() > 0 && b.len() > 0 && c.len() > 0 && a[0] == b[0] && b[0] == c[0] {
        lemma_lex_transitive(a.drop_first(), b.drop_first(), c.drop_first());
    }
}

/// Two different byte strings of one length are ordered one way or the other.
pub proof fn lemma_lex_total(a: Seq<u8>, b: Seq<u8>)
    requires
        a.len() == b.len(),
        a != b,
    ensures
        lex_lt(a, b) || lex_lt(b, a),
    decreases a.len(),
{
    if a.len() > 0 && a[0] == b[0] {
        if a.drop_first() == b.drop_first() {
            assert(a =~= seq![a[0]] + a.drop_first());
            assert(b =~= seq![b[0]] + b.drop_first());
        }
        lemma_lex_total(a.drop_first(), b.drop_first());
    } else if a.len() == 0 {
        assert(a =~= b);
    }
}

/// Whether `a` comes before `b` in the order the overlay writes keys back.
pub fn key_lt(a: &[u8; 32], b: &[u8; 32]) -> (r: bool)
    ensures
        r == lex_lt(a@, b@),
{
    assert(a@.subrange(0, 32) =~= a@);
    assert(b@.subrange(0, 32) =~= b@);
    let mut i: usize = 0;
    while i < 32
        invariant
            0 <= i <= 32,
            a@.len() == 32,
            b@.len() == 32,
            lex_lt(a@, b@) == lex_lt(a@.subrange(i as int, 32), b@.subrange(i as int, 32)),
        decreases 32 - i,
    {
        let ghost sa = a@.subrange(i as int, 32);
        let ghost sb = b@.subrange(i as int, 32);
        assert(sa[0] == a@[i as int]);
        assert(sb[0] == b@[i as int]);
        if a[i] != b[i] {
            return a[i] < b[i];
        }
        assert(sa.drop_first() =~= a@.subrange(i + 1, 32));
        assert(sb.drop_first() =~= b@.subrange(i + 1, 32));
        i = i + 1;
    }
    false
}


/// Keys strictly ascending.
pub open spec fn sorted_keys<T>(e: Seq<([u8; 32], T)>) -> bool {
    forall|i: int, j: int| 0 <= i < j < e.len() ==> lex_lt((#[trigger] e[i]).0@, (#[trigger] e[j]).0@)
}

/// Some entry has key `k`.
pub open spec fn has_key<T>(e: Seq<([u8; 32], T)>, k: Seq<u8>) -> bool {
    exists|i: int| 0 <= i < e.len() && (#[trigger] e[i]).0@ == k
}

/// The position of an entry with key `k`.
pub open spec fn key_index<T>(e: Seq<([u8; 32], T)>, k: Seq<u8>) -> int {
    choose|i: int| 0 <= i < e.len() && (#[trigger] e[i]).0@ == k
}

/// The map that a list of keyed entries stands for.
pub open spec fn entries_map<T>(e: Seq<([u8; 32], T)>) -> Map<Seq<u8>, T> {
    Map::new(|k: Seq<u8>| has_key(e, k), |k: Seq<u8>| e[key_index(e, k)].1)
}

/// `e` lists `m` in ascending key order, each key once.
pub open spec fn lists_in_order<T>(e: Seq<([u8; 32], T)>, m: Map<Seq<u8>, T>) -> bool {
    sorted_keys(e) && entries_map(e) == m
}

/// In a sorted list, the entry at `i` is what the map holds for its key.
pub proof fn lemma_entries_map_at<T>(e: Seq<([u8; 32], T)>, i: int)
    requires
        sorted_keys(e),
        0 <= i < e.len(),
    ensures
        entries_map(e).contains_key(e[i].0@),
        entries_map(e)[e[i].0@] == e[i].1,
{
    let k = e[i].0@;
    assert(has_key(e, k));
    let j = key_index(e, k);
    if j < i {
        assert(lex_lt(e[j].0@, e[i].0@));
        lemma_lex_irreflexive(k);
    } else if j > i {
        assert(lex_lt(e[i].0@, e[j].0@));
        lemma_lex_irreflexive(k);
    }
}

/// A map is listed in order in one way only.
pub proof fn lemma_listing_unique<T>(a: Seq<([u8; 32], T)>, b: Seq<([u8; 32], T)>, m: Map<Seq<u8>, T>)
    requires
        lists_in_order(a, m),
        lists_in_order(b, m),
    ensures
        a == b,
    decreases a.len(),
{
    if a.len() == 0 {
        if b.len() > 0 {
            lemma_entries_map_at(b, 0);
            assert(entries_map(a).contains_key(b[0].0@));
        }
        assert(a =~= b);
    } else {
        lemma_entries_map_at(a, 0);
        assert(entries_map(b).contains_key(a[0].0@));
        let jb = key_index(b, a[0].0@);
        if b.len() == 0 {
            assert(false);
        }
        lemma_entries_map_at(b, 0);
        assert(entries_map(a).contains_key(b[0].0@));
        let ja = key_index(a, b[0].0@);
        // The least keys agree.
        if a[0].0@ != b[0].0@ {
            if jb > 0 {
                assert(lex_lt(b[0].0@, b[jb].0@));
            }
            if ja > 0 {
                assert(lex_lt(a[0].0@, a[ja].0@));
                lemma_lex_transitive(a[0].0@, b[0].0@, a[0].0@);
                lemma_lex_irreflexive(a[0].0@);
            }
            assert(false);
        }
        assert(a[0].0 =~= b[0].0);
        let m2 = m.remove(a[0].0@);
        lemma_drop_first_map(a);
        lemma_drop_first_map(b);
        lemma_listing_unique(a.drop_first(), b.drop_first(), m2);
        assert(a =~= seq![a[0]] + a.drop_first());
        assert(b =~= seq![b[0]] + b.drop_first());
    }
}

/// Dropping the least entry of a sorted list drops its key from the map.
proof fn lemma_drop_first_map<T>(e: Seq<([u8; 32], T)>)
    requires
        sorted_keys(e),
        e.len() > 0,
    ensures
        sorted_keys(e.drop_first()),
        entries_map(e.drop_first()) == entries_map(e).remove(e[0].0@),
{
    let t = e.drop_first();
    assert forall|i: int, j: int| 0 <= i < j < t.len() implies lex_lt((#[trigger] t[i]).0@, (#[trigger] t[j]).0@) by {
        assert(t[i] == e[i + 1] && t[j] == e[j + 1]);
    }
    let m = entries_map(e).remove(e[0].0@);
    assert forall|k: Seq<u8>| entries_map(t).contains_key(k) <==> m.contains_key(k) by {
        if has_key(t, k) {
            let i = key_index(t, k);
            assert(e[i + 1] == t[i]);
            assert(lex_lt(e[0].0@, e[i + 1].0@));
            if k == e[0].0@ {
                lemma_lex_irreflexive(k);
            }
            assert(has_key(e, k));
        }
        if m.contains_key(k) {
            let i = key_index(e, k);
            assert(i != 0);
            assert(t[i - 1] == e[i]);
            assert(has_key(t, k));
        }
    }
    assert forall|k: Seq<u8>| #[trigger] entries_map(t).contains_key(k) implies entries_map(t)[k] == m[k] by {
        let i = key_index(t, k);
        assert(has_key(t, k));
        assert(t[i] == e[i + 1]);
        lemma_entries_map_at(t, i);
        lemma_entries_map_at(e, i + 1);
        assert(lex_lt(e[0].0@, e[i + 1].0@));
        if k == e[0].0@ {
            lemma_lex_irreflexive(k);
        }
        assert(m[k] == entries_map(e)[k]);
    }
    assert(entries_map(t) =~= m);
}

/// `p` is where `k` belongs in `e`: every key before it is smaller, none
/// from it on is.
pub open spec fn slot_of<T>(e: Seq<([u8; 32], T)>, k: Seq<u8>, p: int) -> bool {
    &&& 0 <= p <= e.len()
    &&& forall|i: int| 0 <= i < p ==> lex_lt((#[trigger] e[i]).0@, k)
    &&& forall|i: int| p <= i < e.len() ==> !lex_lt((#[trigger] e[i]).0@, k)
}

/// Inserting a new key at its slot keeps the list sorted and adds the key.
proof fn lemma_insert_at_slot<T>(e: Seq<([u8; 32], T)>, key: [u8; 32], v: T, p: int)
    requires
        sorted_keys(e),
        slot_of(e, key@, p),
        !has_key(e, key@),
    ensures
        sorted_keys(e.insert(p, (key, v))),
        entries_map(e.insert(p, (key, v))) == entries_map(e).insert(key@, v),
{
    let k = key@;
    let t = e.insert(p, (key, v));
    assert forall|i: int| p <= i < e.len() implies lex_lt(k, (#[trigger] e[i]).0@) by {
        if e[i].0@ == k {
            assert(has_key(e, k));
        }
        lemma_lex_total(k, e[i].0@);
    }
    assert forall|i: int, j: int| 0 <= i < j < t.len() implies lex_lt((#[trigger] t[i]).0@, (#[trigger] t[j]).0@) by {
        if j < p {
            assert(t[i] == e[i] && t[j] == e[j]);
        } else if j == p {
            assert(t[i] == e[i]);
        } else if i == p {
            assert(t[j] == e[j - 1]);
        } else if i < p {
            assert(t[i] == e[i] && t[j] == e[j - 1]);
            assert(lex_lt(k, e[j - 1].0@));
            lemma_lex_transitive(e[i].0@, k, e[j - 1].0@);
        } else {
            assert(t[i] == e[i - 1] && t[j] == e[j - 1]);
        }
    }
    let m = entries_map(e).insert(k, v);
    assert forall|k2: Seq<u8>| entries_map(t).contains_key(k2) <==> m.contains_key(k2) by {
        if has_key(t, k2) {
            let i = key_index(t, k2);
            if i < p {
                assert(t[i] == e[i]);
                assert(has_key(e, k2));
            } else if i > p {
                assert(t[i] == e[i - 1]);
                assert(has_key(e, k2));
            }
        }
        if k2 == k {
            assert(t[p] == (key, v));
            assert(has_key(t, k2));
        } else if has_key(e, k2) {
            let i = key_index(e, k2);
            if i < p {
                assert(t[i] == e[i]);
            } else {
                assert(t[i + 1] == e[i]);
            }
            assert(has_key(t, k2));
        }
    }
    assert forall|k2: Seq<u8>| #[trigger] entries_map(t).contains_key(k2) implies entries_map(t)[k2] == m[k2] by {
        assert(has_key(t, k2));
        let i = key_index(t, k2);
        lemma_entries_map_at(t, i);
        if i < p {
            assert(t[i] == e[i]);
            lemma_entries_map_at(e, i);
        } else if i > p {
            assert(t[i] == e[i - 1]);
            lemma_entries_map_at(e, i - 1);
        } else {
            assert(t[i] == (key, v));
        }
    }
    assert(entries_map(t) =~= m);
}

/// Replacing the value at a key's position keeps the list sorted and updates the key.
proof fn lemma_update_at<T>(e: Seq<([u8; 32], T)>, key: [u8; 32], v: T, p: int)
    requires
        sorted_keys(e),
        0 <= p < e.len(),
        e[p].0@ == key@,
    ensures
        sorted_keys(e.update(p, (key, v))),
        entries_map(e.update(p, (key, v))) == entries_map(e).insert(key@, v),
{
    let k = key@;
    let t = e.update(p, (key, v));
    assert forall|i: int, j: int| 0 <= i < j < t.len() implies lex_lt((#[trigger] t[i]).0@, (#[trigger] t[j]).0@) by {
        assert(lex_lt(e[i].0@, e[j].0@));
    }
    let m = entries_map(e).insert(k, v);
    assert forall|k2: Seq<u8>| entries_map(t).contains_key(k2) <==> m.contains_key(k2) by {
        if has_key(t, k2) {
            let i = key_index(t, k2);
            assert(t[i].0@ == e[i].0@);
            assert(has_key(e, k2));
        }
        if has_key(e, k2) {
            let i = key_index(e, k2);
            assert(t[i].0@ == e[i].0@);
            assert(has_key(t, k2));
        }
        if k2 == k {
            assert(t[p].0@ == k);
        }
    }
    assert forall|k2: Seq<u8>| #[trigger] entries_map(t).contains_key(k2) implies entries_map(t)[k2] == m[k2] by {
        assert(has_key(t, k2));
        let i = key_index(t, k2);
        lemma_entries_map_at(t, i);
        if i != p {
            assert(t[i] == e[i]);
            lemma_entries_map_at(e, i);
            if k2 == k {
                if i < p { assert(lex_lt(e[i].0@, e[p].0@)); } else { assert(lex_lt(e[p].0@, e[i].0@)); }
                lemma_lex_irreflexive(k);
            }
        }
    }
    assert(entries_map(t) =~= m);
}

/// Removing the entry at a key's position keeps the list sorted and drops the key.
proof fn lemma_remove_at<T>(e: Seq<([u8; 32], T)>, key: [u8; 32], p: int)
    requires
        sorted_keys(e),
        0 <= p < e.len(),
        e[p].0@ == key@,
    ensures
        sorted_keys(e.remove(p)),
        entries_map(e.remove(p)) == entries_map(e).remove(key@),
{
    let k = key@;
    let t = e.remove(p);
    assert forall|i: int, j: int| 0 <= i < j < t.len() implies lex_lt((#[trigger] t[i]).0@, (#[trigger] t[j]).0@) by {
        if j < p {
            assert(t[i] == e[i] && t[j] == e[j]);
        } else if i < p {
            assert(t[i] == e[i] && t[j] == e[j + 1]);
        } else {
            assert(t[i] == e[i + 1] && t[j] == e[j + 1]);
        }
    }
    let m = entries_map(e).remove(k);
    assert forall|k2: Seq<u8>| entries_map(t).contains_key(k2) <==> m.contains_key(k2) by {
        if has_key(t, k2) {
            let i = key_index(t, k2);
            let ie = if i < p { i } else { i + 1 };
            assert(t[i] == e[ie]);
            assert(has_key(e, k2));
            if k2 == k {
                if ie < p { assert(lex_lt(e[ie].0@, e[p].0@)); } else { assert(lex_lt(e[p].0@, e[ie].0@)); }
                lemma_lex_irreflexive(k);
            }
        }
        if m.contains_key(k2) {
            let i = key_index(e, k2);
            assert(i != p);
            if i < p {
                assert(t[i] == e[i]);
            } else {
                assert(t[i - 1] == e[i]);
            }
            assert(has_key(t, k2));
        }
    }
    assert forall|k2: Seq<u8>| #[trigger] entries_map(t).contains_key(k2) implies entries_map(t)[k2] == m[k2] by {
        assert(has_key(t, k2));
        let i = key_index(t, k2);
        let ie = if i < p { i } else { i + 1 };
        assert(t[i] == e[ie]);
        lemma_entries_map_at(t, i);
        lemma_entries_map_at(e, ie);
        if k2 == k {
            if ie < p { assert(lex_lt(e[ie].0@, e[p].0@)); } else { assert(lex_lt(e[p].0@, e[ie].0@)); }
            lemma_lex_irreflexive(k);
        }
    }
    assert(entries_map(t) =~= m);
}

/// A map from 32-byte keys to values, kept in ascending key order.
pub struct KeyedStore<T> {
    entries: Vec<([u8; 32], T)>,
}

impl<T> KeyedStore<T> {
    /// The keys and values held.
    pub closed spec fn view(&self) -> Map<Seq<u8>, T> {
        entries_map(self.entries@)
    }

    /// The entries are kept in strictly ascending key order.
    pub closed spec fn wf(&self) -> bool {
        sorted_keys(self.entries@)
    }

    pub fn new() -> (s: Self)
        ensures
            s.wf(),
            s@ == Map::<Seq<u8>, T>::empty(),
    {
        let s = KeyedStore { entries: Vec::new() };
        assert(s@ =~= Map::<Seq<u8>, T>::empty());
        s
    }

    /// Where `key` belongs among the entries.
    fn slot(&self, key: &[u8; 32]) -> (p: usize)
        requires
            self.wf(),
        ensures
            slot_of(self.entries@, key@, p as int),
    {
        let mut i: usize = 0;
        while i < self.entries.len()
            invariant
                0 <= i <= self.entries@.len(),
                sorted_keys(self.entries@),
                forall|j: int| 0 <= j < i ==> lex_lt((#[trigger] self.entries@[j]).0@, key@),
            decreases self.entries@.len() - i,
        {
            if !key_lt(&self.entries[i].0, key) {
                proof {
                    assert forall|j: int| i <= j < self.entries@.len() implies !lex_lt((#[trigger] self.entries@[j]).0@, key@) by {
                        if j > i && lex_lt(self.entries@[j].0@, key@) {
                            assert(lex_lt(self.entries@[i as int].0@, self.entries@[j].0@));
                            lemma_lex_transitive(self.entries@[i as int].0@, self.entries@[j].0@, key@);
                        }
                    }
                }
                return i;
            }
            i = i + 1;
        }
        i
    }

    /// Whether the key at `p` is `key`, for `p` the slot of `key`.
    fn holds_at(&self, key: &[u8; 32], p: usize) -> (found: bool)
        requires
            self.wf(),
            slot_of(self.entries@, key@, p as int),
        ensures
            found == (p < self.entries@.len() && self.entries@[p as int].0@ == key@),
            found == self@.contains_key(key@),
    {
        let found = p < self.entries.len() && crate::hashing::bytes32_eq(&self.entries[p].0, key);
        proof {
            if has_key(self.entries@, key@) {
                let i = key_index(self.entries@, key@);
                if i < p {
                    lemma_lex_irreflexive(key@);
                } else if i > p {
                    assert(lex_lt(self.entries@[p as int].0@, self.entries@[i].0@));
                }
            }
            if found {
                assert(has_key(self.entries@, key@));
            }
        }
        found
    }

    /// The value held for `key`.
    pub fn get(&self, key: &[u8; 32]) -> (r: Option<&T>)
        requires
            self.wf(),
        ensures
            match r {
                Some(v) => self@.contains_key(key@) && *v == self@[key@],
                None => !self@.contains_key(key@),
            },
    {
        let p = self.slot(key);
        if self.holds_at(key, p) {
            proof { lemma_entries_map_at(self.entries@, p as int); }
            Some(&self.entries[p].1)
        } else {
            None
        }
    }

    /// Whether a value is held for `key`.
    pub fn contains(&self, key: &[u8; 32]) -> (r: bool)
        requires
            self.wf(),
        ensures
            r == self@.contains_key(key@),
    {
        let p = self.slot(key);
        self.holds_at(key, p)
    }

    /// Hold `value` for `key`, replacing what was held.
    pub fn insert(&mut self, key: [u8; 32], value: T)
        requires
            old(self).wf(),
        ensures
            final(self).wf(),
            final(self)@ == old(self)@.insert(key@, value),
    {
        let p = self.slot(&key);
        if self.holds_at(&key, p) {
            proof { lemma_update_at(self.entries@, key, value, p as int); }
            self.entries.set(p, (key, value));
        } else {
            proof { lemma_insert_at_slot(self.entries@, key, value, p as int); }
            self.entries.insert(p, (key, value));
        }
    }

    /// Stop holding anything for `key`; returns what was held.
    pub fn remove(&mut self, key: &[u8; 32]) -> (r: Option<T>)
        requires
            old(self).wf(),
        ensures
            final(self).wf(),
            final(self)@ == old(self)@.remove(key@),
            match r {
                Some(v) => old(self)@.contains_key(key@) && v == old(self)@[key@],
                None => !old(self)@.contains_key(key@),
            },
    {
        let p = self.slot(key);
        if self.holds_at(key, p) {
            proof {
                lemma_entries_map_at(self.entries@, p as int);
                lemma_remove_at(self.entries@, *key, p as int);
            }
            let (_, v) = self.entries.remove(p);
            Some(v)
        } else {
            proof { assert(self@.remove(key@) =~= self@); }
            None
        }
    }

    /// The entries in ascending key order.
    pub fn into_entries(self) -> (e: Vec<([u8; 32], T)>)
        requires
            self.wf(),
        ensures
            lists_in_order(e@, self@),
    {
        self.entries
    }
}

/// What the base store holds for one access key, read before a partition runs.
pub enum BaseRead<O, G> {
    /// The account, if the base store has it.
    Account(Option<Account>),
    /// The object and the ghost under the id, each if present.
    Object(Option<O>, Option<G>),
    /// An engine key: nothing to copy.
    Engine,
}

/// The keys of a sorted list of entries, in order.
pub open spec fn keys_listed<T>(e: Seq<([u8; 32], T)>) -> Seq<[u8; 32]> {
    e.map_values(|x: ([u8; 32], T)| x.0)
}

/// `ks` lists the set `s` in ascending order, each key once.
pub open spec fn keys_in_order(ks: Seq<[u8; 32]>, s: Set<Seq<u8>>) -> bool {
    exists|e: Seq<([u8; 32], ())>| lists_in_order(e, Map::new(|k: Seq<u8>| s.contains(k), |k: Seq<u8>| ())) && ks == keys_listed(e)
}

/// The writes that carry an overlay's changes into the base store, in the
/// order they are applied: accounts, object deletions, objects, ghost
/// removals, ghosts, each in ascending key order.
pub struct MergePlan<O, G> {
    pub accounts: Vec<([u8; 32], Account)>,
    pub deleted_objects: Vec<[u8; 32]>,
    pub objects: Vec<([u8; 32], O)>,
    pub removed_ghosts: Vec<[u8; 32]>,
    pub ghosts: Vec<([u8; 32], G)>,
}

/// `plan` writes back exactly these maps and sets, each in ascending key order.
pub open spec fn is_merge_plan<O, G>(
    accounts: Map<Seq<u8>, Account>,
    objects: Map<Seq<u8>, O>,
    ghosts: Map<Seq<u8>, G>,
    deleted: Set<Seq<u8>>,
    removed: Set<Seq<u8>>,
    plan: MergePlan<O, G>,
) -> bool {
    &&& lists_in_order(plan.accounts@, accounts)
    &&& keys_in_order(plan.deleted_objects@, deleted)
    &&& lists_in_order(plan.objects@, objects)
    &&& keys_in_order(plan.removed_ghosts@, removed)
    &&& lists_in_order(plan.ghosts@, ghosts)
}

fn keys_only(e: Vec<([u8; 32], ())>) -> (ks: Vec<[u8; 32]>)
    ensures
        ks@ == keys_listed(e@),
{
    let mut ks: Vec<[u8; 32]> = Vec::new();
    let mut i: usize = 0;
    while i < e.len()
        invariant
            0 <= i <= e@.len(),
            ks@ == keys_listed(e@).take(i as int),
        decreases e@.len() - i,
    {
        ks.push(e[i].0);
        proof { assert(keys_listed(e@).take(i + 1) =~= keys_listed(e@).take(i as int).push(e@[i as int].0)); }
        i = i + 1;
    }
    assert(keys_listed(e@).take(e@.len() as int) =~= keys_listed(e@));
    ks
}

/// The state a partition runs against: copies of the base state it touches
/// and everything it wrote, with the object and ghost ids it created,
/// deleted, added and removed.
pub struct StateOverlay<O, G> {
    accounts: KeyedStore<Account>,
    objects: KeyedStore<O>,
    ghosts: KeyedStore<G>,
    created_objects: KeyedStore<()>,
    deleted_objects: KeyedStore<()>,
    created_ghosts: KeyedStore<()>,
    removed_ghosts: KeyedStore<()>,
}

/// A fresh account: nothing but its address.
pub open spec fn fresh_account(addr: [u8; 32]) -> Account {
    Account { address: addr, balance: 0, nonce: 0, storage_deposit: 0, storage_bytes: 0, last_touched_epoch: 0 }
}

impl<O, G> StateOverlay<O, G> {
    pub closed spec fn wf(&self) -> bool {
        &&& self.accounts.wf()
        &&& self.objects.wf()
        &&& self.ghosts.wf()
        &&& self.created_objects.wf()
        &&& self.deleted_objects.wf()
        &&& self.created_ghosts.wf()
        &&& self.removed_ghosts.wf()
    }

    /// Accounts held, by address.
    pub closed spec fn accounts(&self) -> Map<Seq<u8>, Account> { self.accounts@ }
    /// Objects held, by id.
    pub closed spec fn objects(&self) -> Map<Seq<u8>, O> { self.objects@ }
    /// Ghosts held, by object id.
    pub closed spec fn ghosts(&self) -> Map<Seq<u8>, G> { self.ghosts@ }
    /// Ids of objects put into the overlay.
    pub closed spec fn created_objects(&self) -> Set<Seq<u8>> { self.created_objects@.dom() }
    /// Ids of objects deleted from the overlay.
    pub closed spec fn deleted_objects(&self) -> Set<Seq<u8>> { self.deleted_objects@.dom() }
    /// Ids of ghosts put into the overlay.
    pub closed spec fn created_ghosts(&self) -> Set<Seq<u8>> { self.created_ghosts@.dom() }
    /// Ids of ghosts removed from the overlay.
    pub closed spec fn removed_ghosts(&self) -> Set<Seq<u8>> { self.removed_ghosts@.dom() }

    pub fn new() -> (o: Self)
        ensures
            o.wf(),
            o.accounts() == Map::<Seq<u8>, Account>::empty(),
            o.objects() == Map::<Seq<u8>, O>::empty(),
            o.ghosts() == Map::<Seq<u8>, G>::empty(),
            o.created_objects() == Set::<Seq<u8>>::empty(),
            o.deleted_objects() == Set::<Seq<u8>>::empty(),
            o.created_ghosts() == Set::<Seq<u8>>::empty(),
            o.removed_ghosts() == Set::<Seq<u8>>::empty(),
    {
        StateOverlay {
            accounts: KeyedStore::new(),
            objects: KeyedStore::new(),
            ghosts: KeyedStore::new(),
            created_objects: KeyedStore::new(),
            deleted_objects: KeyedStore::new(),
            created_ghosts: KeyedStore::new(),
            removed_ghosts: KeyedStore::new(),
        }
    }

    /// The account held for `addr`.
    pub fn get_account(&self, addr: &[u8; 32]) -> (r: Option<&Account>)
        requires
            self.wf(),
        ensures
            match r {
                Some(a) => self.accounts().contains_key(addr@) && *a == self.accounts()[addr@],
                None => !self.accounts().contains_key(addr@),
            },
    {
        self.accounts.get(addr)
    }

    /// Hold `account` under its address.
    pub fn put_account(&mut self, account: Account)
        requires
            old(self).wf(),
        ensures
            final(self).wf(),
            final(self).accounts() == old(self).accounts().insert(account.address@, account),
            final(self).objects() == old(self).objects(),
            final(self).ghosts() == old(self).ghosts(),
            final(self).created_objects() == old(self).created_objects(),
            final(self).deleted_objects() == old(self).deleted_objects(),
            final(self).created_ghosts() == old(self).created_ghosts(),
            final(self).removed_ghosts() == old(self).removed_ghosts(),
    {
        self.accounts.insert(account.address, account);
    }

    /// Hold `account` under the address `addr` (the entry that
    /// `get_or_create_account(addr)` reads and writes).
    pub fn put_account_at(&mut self, addr: &[u8; 32], account: Account)
        requires
            old(self).wf(),
        ensures
            final(self).wf(),
            final(self).accounts() == old(self).accounts().insert(addr@, account),
            final(self).objects() == old(self).objects(),
            final(self).ghosts() == old(self).ghosts(),
            final(self).created_objects() == old(self).created_objects(),
            final(self).deleted_objects() == old(self).deleted_objects(),
            final(self).created_ghosts() == old(self).created_ghosts(),
            final(self).removed_ghosts() == old(self).removed_ghosts(),
    {
        self.accounts.insert(*addr, account);
    }

    /// Drop the account held for `addr`, returning it.
    pub fn delete_account(&mut self, addr: &[u8; 32]) -> (r: Option<Account>)
        requires
            old(self).wf(),
        ensures
            final(self).wf(),
            final(self).accounts() == old(self).accounts().remove(addr@),
            r == (if old(self).accounts().contains_key(addr@) { Some(old(self).accounts()[addr@]) } else { None }),
            final(self).objects() == old(self).objects(),
            final(self).ghosts() == old(self).ghosts(),
            final(self).created_objects() == old(self).created_objects(),
            final(self).deleted_objects() == old(self).deleted_objects(),
            final(self).created_ghosts() == old(self).created_ghosts(),
            final(self).removed_ghosts() == old(self).removed_ghosts(),
    {
        self.accounts.remove(addr)
    }

    /// The account held for `addr`, after holding a fresh one there if
    /// there was none.
    pub fn get_or_create_account(&mut self, addr: &[u8; 32]) -> (a: Account)
        requires
            old(self).wf(),
        ensures
            final(self).wf(),
            old(self).accounts().contains_key(addr@) ==> a == old(self).accounts()[addr@]
                && final(self).accounts() == old(self).accounts(),
            !old(self).accounts().contains_key(addr@) ==> a == fresh_account(*addr)
                && final(self).accounts() == old(self).accounts().insert(addr@, fresh_account(*addr)),
            final(self).objects() == old(self).objects(),
            final(self).ghosts() == old(self).ghosts(),
            final(self).created_objects() == old(self).created_objects(),
            final(self).deleted_objects() == old(self).deleted_objects(),
            final(self).created_ghosts() == old(self).created_ghosts(),
            final(self).removed_ghosts() == old(self).removed_ghosts(),
    {
        match self.accounts.get(addr) {
            Some(a) => *a,
            None => {
                let a = Account {
                    address: *addr,
                    balance: 0,
                    nonce: 0,
                    storage_deposit: 0,
                    storage_bytes: 0,
                    last_touched_epoch: 0,
                };
                self.accounts.insert(*addr, a);
                a
            },
        }
    }

    /// The object held under `id`.
    pub fn get_object(&self, id: &[u8; 32]) -> (r: Option<&O>)
        requires
            self.wf(),
        ensures
            match r {
                Some(o) => self.objects().contains_key(id@) && *o == self.objects()[id@],
                None => !self.objects().contains_key(id@),
            },
    {
        self.objects.get(id)
    }

    /// Hold `object` under `id`, recording the id as created.
    pub fn put_object(&mut self, id: [u8; 32], object: O)
        requires
            old(self).wf(),
        ensures
            final(self).wf(),
            final(self).objects() == old(self).objects().insert(id@, object),
            final(self).created_objects() == old(self).created_objects().insert(id@),
            final(self).accounts() == old(self).accounts(),
            final(self).ghosts() == old(self).ghosts(),
            final(self).deleted_objects() == old(self).deleted_objects(),
            final(self).created_ghosts() == old(self).created_ghosts(),
            final(self).removed_ghosts() == old(self).removed_ghosts(),
    {
        self.objects.insert(id, object);
        self.created_objects.insert(id, ());
        proof { assert(self.created_objects@.dom() =~= old(self).created_objects@.dom().insert(id@)); }
    }

    /// Drop the object under `id`, recording the id as deleted whether or
    /// not an object was held; returns what was held.
    pub fn delete_object(&mut self, id: &[u8; 32]) -> (r: Option<O>)
        requires
            old(self).wf(),
        ensures
            final(self).wf(),
            final(self).objects() == old(self).objects().remove(id@),
            match r {
                Some(o) => old(self).objects().contains_key(id@) && o == old(self).objects()[id@],
                None => !old(self).objects().contains_key(id@),
            },
            final(self).deleted_objects() == old(self).deleted_objects().insert(id@),
            final(self).accounts() == old(self).accounts(),
            final(self).ghosts() == old(self).ghosts(),
            final(self).created_objects() == old(self).created_objects(),
            final(self).created_ghosts() == old(self).created_ghosts(),
            final(self).removed_ghosts() == old(self).removed_ghosts(),
    {
        self.deleted_objects.insert(*id, ());
        proof { assert(self.deleted_objects@.dom() =~= old(self).deleted_objects@.dom().insert(id@)); }
        self.objects.remove(id)
    }

    /// The ghost held under `id`.
    pub fn get_ghost(&self, id: &[u8; 32]) -> (r: Option<&G>)
        requires
            self.wf(),
        ensures
            match r {
                Some(g) => self.ghosts().contains_key(id@) && *g == self.ghosts()[id@],
                None => !self.ghosts().contains_key(id@),
            },
    {
        self.ghosts.get(id)
    }

    /// Hold `ghost` under the object id `id`, recording the id as added.
    pub fn put_ghost(&mut self, id: [u8; 32], ghost: G)
        requires
            old(self).wf(),
        ensures
            final(self).wf(),
            final(self).ghosts() == old(self).ghosts().insert(id@, ghost),
            final(self).created_ghosts() == old(self).created_ghosts().insert(id@),
            final(self).accounts() == old(self).accounts(),
            final(self).objects() == old(self).objects(),
            final(self).created_objects() == old(self).created_objects(),
            final(self).deleted_objects() == old(self).deleted_objects(),
            final(self).removed_ghosts() == old(self).removed_ghosts(),
    {
        self.ghosts.insert(id, ghost);
        self.created_ghosts.insert(id, ());
        proof { assert(self.created_ghosts@.dom() =~= old(self).created_ghosts@.dom().insert(id@)); }
    }

    /// Drop the ghost under `id`, recording the id as removed whether or not
    /// a ghost was held; returns what was held.
    pub fn remove_ghost(&mut self, id: &[u8; 32]) -> (r: Option<G>)
        requires
            old(self).wf(),
        ensures
            final(self).wf(),
            final(self).ghosts() == old(self).ghosts().remove(id@),
            match r {
                Some(g) => old(self).ghosts().contains_key(id@) && g == old(self).ghosts()[id@],
                None => !old(self).ghosts().contains_key(id@),
            },
            final(self).removed_ghosts() == old(self).removed_ghosts().insert(id@),
            final(self).accounts() == old(self).accounts(),
            final(self).objects() == old(self).objects(),
            final(self).created_objects() == old(self).created_objects(),
            final(self).deleted_objects() == old(self).deleted_objects(),
            final(self).created_ghosts() == old(self).created_ghosts(),
    {
        self.removed_ghosts.insert(*id, ());
        proof { assert(self.removed_ghosts@.dom() =~= old(self).removed_ghosts@.dom().insert(id@)); }
        self.ghosts.remove(id)
    }

    /// Copy what the base store holds for one access key into the overlay:
    /// an account under its address, an object and a ghost under their id.
    /// Copies are not recorded as created. A read of the wrong kind for the
    /// key, or of an engine key, copies nothing.
    pub fn populate_key(&mut self, key: &AccessKey, read: BaseRead<O, G>)
        requires
            old(self).wf(),
        ensures
            final(self).wf(),
            final(self).accounts() == match (*key, read) {
                (AccessKey::Account(addr), BaseRead::Account(Some(a))) => old(self).accounts().insert(addr@, a),
                _ => old(self).accounts(),
            },
            final(self).objects() == match (*key, read) {
                (AccessKey::Object(id), BaseRead::Object(Some(o), _)) => old(self).objects().insert(id@, o),
                _ => old(self).objects(),
            },
            final(self).ghosts() == match (*key, read) {
                (AccessKey::Object(id), BaseRead::Object(_, Some(g))) => old(self).ghosts().insert(id@, g),
                _ => old(self).ghosts(),
            },
            final(self).created_objects() == old(self).created_objects(),
            final(self).deleted_objects() == old(self).deleted_objects(),
            final(self).created_ghosts() == old(self).created_ghosts(),
            final(self).removed_ghosts() == old(self).removed_ghosts(),
    {
        match key {
            AccessKey::Account(addr) => {
                if let BaseRead::Account(Some(a)) = read {
                    self.accounts.insert(*addr, a);
                }
            },
            AccessKey::Object(id) => {
                if let BaseRead::Object(o, g) = read {
                    if let Some(o) = o {
                        self.objects.insert(*id, o);
                    }
                    if let Some(g) = g {
                        self.ghosts.insert(*id, g);
                    }
                }
            },
            _ => {},
        }
    }

    /// The writes that carry this overlay into the base store, each kind in
    /// ascending key order.
    pub fn into_merge_plan(self) -> (plan: MergePlan<O, G>)
        requires
            self.wf(),
        ensures
            is_merge_plan(self.accounts(), self.objects(), self.ghosts(), self.deleted_objects(), self.removed_ghosts(), plan),
    {
        let ghost deleted = self.deleted_objects@;
        let ghost removed = self.removed_ghosts@;
        let de = self.deleted_objects.into_entries();
        let re = self.removed_ghosts.into_entries();
        proof {
            assert(Map::new(|k: Seq<u8>| deleted.dom().contains(k), |k: Seq<u8>| ()) =~= deleted);
            assert(Map::new(|k: Seq<u8>| removed.dom().contains(k), |k: Seq<u8>| ()) =~= removed);
        }
        let deleted_objects = keys_only(de);
        let removed_ghosts = keys_only(re);
        MergePlan {
            accounts: self.accounts.into_entries(),
            deleted_objects,
            objects: self.objects.into_entries(),
            removed_ghosts,
            ghosts: self.ghosts.into_entries(),
        }
    }
}

/// The writes that carry an overlay back are fixed by what the overlay
/// holds: two plans for the same accounts, objects, ghosts and deleted and
/// removed ids list the same writes in the same order.
pub proof fn law_merge_plan_determined<O, G>(
    accounts: Map<Seq<u8>, Account>,
    objects: Map<Seq<u8>, O>,
    ghosts: Map<Seq<u8>, G>,
    deleted: Set<Seq<u8>>,
    removed: Set<Seq<u8>>,
    a: MergePlan<O, G>,
    b: MergePlan<O, G>,
)
    requires
        is_merge_plan(accounts, objects, ghosts, deleted, removed, a),
        is_merge_plan(accounts, objects, ghosts, deleted, removed, b),
    ensures
        a.accounts@ == b.accounts@,
        a.deleted_objects@ == b.deleted_objects@,
        a.objects@ == b.objects@,
        a.removed_ghosts@ == b.removed_ghosts@,
        a.ghosts@ == b.ghosts@,
{
    lemma_listing_unique(a.accounts@, b.accounts@, accounts);
    lemma_listing_unique(a.objects@, b.objects@, objects);
    lemma_listing_unique(a.ghosts@, b.ghosts@, ghosts);
    let dm = Map::new(|k: Seq<u8>| deleted.contains(k), |k: Seq<u8>| ());
    let ea = choose|e: Seq<([u8; 32], ())>| lists_in_order(e, dm) && a.deleted_objects@ == keys_listed(e);
    let eb = choose|e: Seq<([u8; 32], ())>| lists_in_order(e, dm) && b.deleted_objects@ == keys_listed(e);
    lemma_listing_unique(ea, eb, dm);
    let rm = Map::new(|k: Seq<u8>| removed.contains(k), |k: Seq<u8>| ());
    let ra = choose|e: Seq<([u8; 32], ())>| lists_in_order(e, rm) && a.removed_ghosts@ == keys_listed(e);
    let rb = choose|e: Seq<([u8; 32], ())>| lists_in_order(e, rm) && b.removed_ghosts@ == keys_listed(e);
    lemma_listing_unique(ra, rb, rm);
}

/// A key-value store after the puts of `e`, in order.
pub open spec fn put_all<T>(m: Map<Seq<u8>, T>, e: Seq<([u8; 32], T)>) -> Map<Seq<u8>, T>
    decreases e.len(),
{
    if e.len() == 0 {
        m
    } else {
        put_all(m, e.drop_last()).insert(e.last().0@, e.last().1)
    }
}

/// A key-value store after the deletions of `ks`, in order.
pub open spec fn remove_all<T>(m: Map<Seq<u8>, T>, ks: Seq<[u8; 32]>) -> Map<Seq<u8>, T>
    decreases ks.len(),
{
    if ks.len() == 0 {
        m
    } else {
        remove_all(m, ks.drop_last()).remove(ks.last()@)
    }
}

/// Dropping the greatest entry of a sorted list drops its key from the map.
proof fn lemma_drop_last_map<T>(e: Seq<([u8; 32], T)>)
    requires
        sorted_keys(e),
        e.len() > 0,
    ensures
        sorted_keys(e.drop_last()),
        entries_map(e) == entries_map(e.drop_last()).insert(e.last().0@, e.last().1),
{
    let t = e.drop_last();
    let n = e.len() - 1;
    assert forall|i: int, j: int| 0 <= i < j < t.len() implies lex_lt((#[trigger] t[i]).0@, (#[trigger] t[j]).0@) by {
        assert(t[i] == e[i] && t[j] == e[j]);
    }
    let m = entries_map(t).insert(e[n].0@, e[n].1);
    assert forall|k: Seq<u8>| entries_map(e).contains_key(k) <==> m.contains_key(k) by {
        if has_key(e, k) {
            let i = key_index(e, k);
            if i < n {
                assert(t[i] == e[i]);
                assert(has_key(t, k));
            }
        }
        if has_key(t, k) {
            let i = key_index(t, k);
            assert(t[i] == e[i]);
            assert(has_key(e, k));
        }
        if k == e[n].0@ {
            assert(has_key(e, k));
        }
    }
    assert forall|k: Seq<u8>| #[trigger] entries_map(e).contains_key(k) implies entries_map(e)[k] == m[k] by {
        assert(has_key(e, k));
        let i = key_index(e, k);
        lemma_entries_map_at(e, i);
        if i < n {
            assert(t[i] == e[i]);
            lemma_entries_map_at(t, i);
            assert(lex_lt(e[i].0@, e[n].0@));
            if k == e[n].0@ {
                lemma_lex_irreflexive(k);
            }
        }
    }
    assert(entries_map(e) =~= m);
}

/// Putting a sorted list's entries overrides the store with the list's map.
proof fn lemma_put_all<T>(m: Map<Seq<u8>, T>, e: Seq<([u8; 32], T)>)
    requires
        sorted_keys(e),
    ensures
        put_all(m, e) == m.union_prefer_right(entries_map(e)),
    decreases e.len(),
{
    if e.len() == 0 {
        assert(entries_map(e) =~= Map::<Seq<u8>, T>::empty());
        assert(m.union_prefer_right(entries_map(e)) =~= m);
    } else {
        lemma_drop_last_map(e);
        lemma_put_all(m, e.drop_last());
        assert(put_all(m, e) =~= m.union_prefer_right(entries_map(e)));
    }
}

/// Deleting a sorted list's keys removes exactly those keys.
proof fn lemma_remove_all<T, U>(m: Map<Seq<u8>, T>, e: Seq<([u8; 32], U)>)
    requires
        sorted_keys(e),
    ensures
        remove_all(m, keys_listed(e)) == m.remove_keys(entries_map(e).dom()),
    decreases e.len(),
{
    if e.len() == 0 {
        assert(entries_map(e).dom() =~= Set::<Seq<u8>>::empty());
        assert(m.remove_keys(entries_map(e).dom()) =~= m);
    } else {
        lemma_drop_last_map(e);
        lemma_remove_all(m, e.drop_last());
        assert(keys_listed(e).drop_last() =~= keys_listed(e.drop_last()));
        assert(remove_all(m, keys_listed(e)) =~= m.remove_keys(entries_map(e).dom()));
    }
}

/// Applying a merge plan writes the overlay back: every account it holds
/// overrides the base account; deleted objects leave the base store unless
/// the overlay holds them again, and the overlay's objects override; ghosts
/// likewise with the removed ghost ids.
pub proof fn law_merge_writes_back<O, G>(
    base_accounts: Map<Seq<u8>, Account>,
    base_objects: Map<Seq<u8>, O>,
    base_ghosts: Map<Seq<u8>, G>,
    accounts: Map<Seq<u8>, Account>,
    objects: Map<Seq<u8>, O>,
    ghosts: Map<Seq<u8>, G>,
    deleted: Set<Seq<u8>>,
    removed: Set<Seq<u8>>,
    plan: MergePlan<O, G>,
)
    requires
        is_merge_plan(accounts, objects, ghosts, deleted, removed, plan),
    ensures
        put_all(base_accounts, plan.accounts@) == base_accounts.union_prefer_right(accounts),
        put_all(remove_all(base_objects, plan.deleted_objects@), plan.objects@)
            == base_objects.remove_keys(deleted).union_prefer_right(objects),
        put_all(remove_all(base_ghosts, plan.removed_ghosts@), plan.ghosts@)
            == base_ghosts.remove_keys(removed).union_prefer_right(ghosts),
{
    lemma_put_all(base_accounts, plan.accounts@);
    let dm = Map::new(|k: Seq<u8>| deleted.contains(k), |k: Seq<u8>| ());
    let de = choose|e: Seq<([u8; 32], ())>| lists_in_order(e, dm) && plan.deleted_objects@ == keys_listed(e);
    lemma_remove_all(base_objects, de);
    assert(dm.dom() =~= deleted);
    lemma_put_all(remove_all(base_objects, plan.deleted_objects@), plan.objects@);
    let rm = Map::new(|k: Seq<u8>| removed.contains(k), |k: Seq<u8>| ());
    let re = choose|e: Seq<([u8; 32], ())>| lists_in_order(e, rm) && plan.removed_ghosts@ == keys_listed(e);
    lemma_remove_all(base_ghosts, re);
    assert(rm.dom() =~= removed);
    lemma_put_all(remove_all(base_ghosts, plan.removed_ghosts@), plan.ghosts@);
}

} // verus!
