//! Conflict-free partitioning of a block's transactions.
//!
//! Each transaction touches a set of state keys. Two transactions that share
//! a key, directly or through a chain of others, must run one after the
//! other; the partition groups a block into the connected components of
//! that "shares a key" relation, each group in block order and the groups in
//! the order of their first transaction.

use vstd::prelude::*;
use crate::hashing::bytes32_eq;
use crate::block::TxOutcome;
use crate::ordering::{desc_stable_order, is_desc_stable_order};

verus! {

/// A piece of state that a transaction reads or writes.
#[derive(Clone, Copy, Debug)]
pub enum AccessKey {
    /// An account, by address.
    Account([u8; 32]),
    /// A state object or ghost, by id.
    Object([u8; 32]),
    /// The global contract engine.
    ContractEngine,
    /// The global script engine.
    ScriptEngine,
    /// The global privacy engine.
    PrivacyEngine,
    /// The global temporal (deferred transaction) engine.
    TemporalEngine,
}

/// Equality of access keys.
pub fn access_key_eq(a: &AccessKey, b: &AccessKey) -> (r: bool)
    ensures
        r == (*a == *b),
{
    match (a, b) {
        (AccessKey::Account(x), AccessKey::Account(y)) => {
            let e = bytes32_eq(x, y);
            proof { if e { assert(*x =~= *y); } }
            e
        },
        (AccessKey::Object(x), AccessKey::Object(y)) => {
            let e = bytes32_eq(x, y);
            proof { if e { assert(*x =~= *y); } }
            e
        },
        (AccessKey::ContractEngine, AccessKey::ContractEngine) => true,
        (AccessKey::ScriptEngine, AccessKey::ScriptEngine) => true,
        (AccessKey::PrivacyEngine, AccessKey::PrivacyEngine) => true,
        (AccessKey::TemporalEngine, AccessKey::TemporalEngine) => true,
        _ => false,
    }
}

/// What key extraction reads of a transaction: its kind and the accounts
/// and objects it names.
#[derive(Clone, Copy, Debug)]
pub enum TxAccess {
    Transfer { from: [u8; 32], to: [u8; 32] },
    CreateObject { creator: [u8; 32], object_id: [u8; 32] },
    Refresh { object_id: [u8; 32] },
    DeployContract { deployer: [u8; 32] },
    CallContract { caller: [u8; 32] },
    DeployScript { deployer: [u8; 32] },
    CallScript { caller: [u8; 32] },
    ValidatorStake { validator_address: [u8; 32] },
    ValidatorExit { validator_address: [u8; 32] },
    ValidatorClaimStake { validator_address: [u8; 32] },
    Shield { from: [u8; 32] },
    Unshield { to: [u8; 32] },
    PrivateTransfer,
    Deferred { submitter: [u8; 32] },
    Blob { submitter: [u8; 32] },
    Governance { sender: [u8; 32] },
    MultiSig { multisig_address: [u8; 32] },
    UserOp { sender: [u8; 32], paymaster: Option<[u8; 32]> },
    UpgradeContract { owner: [u8; 32] },
    Delegate { delegator: [u8; 32] },
    Undelegate { delegator: [u8; 32] },
    RotateValidatorKey { validator_address: [u8; 32] },
    ClaimDelegation { delegator: [u8; 32] },
    Refund { attacker: [u8; 32], victim: [u8; 32] },
}

/// The state keys a transaction reads or writes.
pub open spec fn spec_access_keys(tx: TxAccess) -> Seq<AccessKey> {
    match tx {
        TxAccess::Transfer { from, to } => seq![AccessKey::Account(from), AccessKey::Account(to)],
        TxAccess::CreateObject { creator, object_id } => seq![AccessKey::Account(creator), AccessKey::Object(object_id)],
        TxAccess::Refresh { object_id } => seq![AccessKey::Object(object_id)],
        TxAccess::DeployContract { deployer } => seq![AccessKey::Account(deployer), AccessKey::ContractEngine],
        TxAccess::CallContract { caller } => seq![AccessKey::Account(caller), AccessKey::ContractEngine],
        TxAccess::DeployScript { deployer } => seq![AccessKey::Account(deployer), AccessKey::ScriptEngine],
        TxAccess::CallScript { caller } => seq![AccessKey::Account(caller), AccessKey::ScriptEngine],
        TxAccess::ValidatorStake { validator_address } => seq![AccessKey::Account(validator_address)],
        TxAccess::ValidatorExit { validator_address } => seq![AccessKey::Account(validator_address)],
        TxAccess::ValidatorClaimStake { validator_address } => seq![AccessKey::Account(validator_address)],
        TxAccess::Shield { from } => seq![AccessKey::Account(from), AccessKey::PrivacyEngine],
        TxAccess::Unshield { to } => seq![AccessKey::Account(to), AccessKey::PrivacyEngine],
        TxAccess::PrivateTransfer => seq![AccessKey::PrivacyEngine],
        TxAccess::Deferred { submitter } => seq![AccessKey::Account(submitter), AccessKey::TemporalEngine],
        TxAccess::Blob { submitter } => seq![AccessKey::Account(submitter)],
        TxAccess::Governance { sender } => seq![AccessKey::Account(sender)],
        TxAccess::MultiSig { multisig_address } => seq![AccessKey::Account(multisig_address)],
        TxAccess::UserOp { sender, paymaster } => match paymaster {
            Some(pm) => seq![AccessKey::Account(sender), AccessKey::Account(pm)],
            None => seq![AccessKey::Account(sender)],
        },
        TxAccess::UpgradeContract { owner } => seq![AccessKey::Account(owner)],
        TxAccess::Delegate { delegator } => seq![AccessKey::Account(delegator)],
        TxAccess::Undelegate { delegator } => seq![AccessKey::Account(delegator)],
        TxAccess::RotateValidatorKey { validator_address } => seq![AccessKey::Account(validator_address)],
        TxAccess::ClaimDelegation { delegator } => seq![AccessKey::Account(delegator)],
        TxAccess::Refund { attacker, victim } => seq![AccessKey::Account(attacker), AccessKey::Account(victim)],
    }
}

/// The state keys a transaction reads or writes.
pub fn extract_access_keys(tx: &TxAccess) -> (keys: Vec<AccessKey>)
    ensures
        keys@ == spec_access_keys(*tx),
{
    let keys = match *tx {
        TxAccess::Transfer { from, to } => vec![AccessKey::Account(from), AccessKey::Account(to)],
        TxAccess::CreateObject { creator, object_id } => vec![AccessKey::Account(creator), AccessKey::Object(object_id)],
        TxAccess::Refresh { object_id } => vec![AccessKey::Object(object_id)],
        TxAccess::DeployContract { deployer } => vec![AccessKey::Account(deployer), AccessKey::ContractEngine],
        TxAccess::CallContract { caller } => vec![AccessKey::Account(caller), AccessKey::ContractEngine],
        TxAccess::DeployScript { deployer } => vec![AccessKey::Account(deployer), AccessKey::ScriptEngine],
        TxAccess::CallScript { caller } => vec![AccessKey::Account(caller), AccessKey::ScriptEngine],
        TxAccess::ValidatorStake { validator_address } => vec![AccessKey::Account(validator_address)],
        TxAccess::ValidatorExit { validator_address } => vec![AccessKey::Account(validator_address)],
        TxAccess::ValidatorClaimStake { validator_address } => vec![AccessKey::Account(validator_address)],
        TxAccess::Shield { from } => vec![AccessKey::Account(from), AccessKey::PrivacyEngine],
        TxAccess::Unshield { to } => vec![AccessKey::Account(to), AccessKey::PrivacyEngine],
        TxAccess::PrivateTransfer => vec![AccessKey::PrivacyEngine],
        TxAccess::Deferred { submitter } => vec![AccessKey::Account(submitter), AccessKey::TemporalEngine],
        TxAccess::Blob { submitter } => vec![AccessKey::Account(submitter)],
        TxAccess::Governance { sender } => vec![AccessKey::Account(sender)],
        TxAccess::MultiSig { multisig_address } => vec![AccessKey::Account(multisig_address)],
        TxAccess::UserOp { sender, paymaster } => {
            let mut keys = vec![AccessKey::Account(sender)];
            if let Some(pm) = paymaster {
                keys.push(AccessKey::Account(pm));
            }
            keys
        },
        TxAccess::UpgradeContract { owner } => vec![AccessKey::Account(owner)],
        TxAccess::Delegate { delegator } => vec![AccessKey::Account(delegator)],
        TxAccess::Undelegate { delegator } => vec![AccessKey::Account(delegator)],
        TxAccess::RotateValidatorKey { validator_address } => vec![AccessKey::Account(validator_address)],
        TxAccess::ClaimDelegation { delegator } => vec![AccessKey::Account(delegator)],
        TxAccess::Refund { attacker, victim } => vec![AccessKey::Account(attacker), AccessKey::Account(victim)],
    };
    assert(keys@ =~= spec_access_keys(*tx));
    keys
}

/// Roots among the first `k` elements.
spec fn count_roots(rs: Seq<int>, k: int) -> nat
    decreases k,
{
    if k <= 0 {
        0
    } else {
        count_roots(rs, k - 1) + if rs[k - 1] == k - 1 { 1nat } else { 0nat }
    }
}

proof fn lemma_count_identity(rs: Seq<int>, k: int)
    requires
        0 <= k <= rs.len(),
        forall|i: int| 0 <= i < k ==> rs[i] == i,
    ensures
        count_roots(rs, k) == k,
    decreases k,
{
    if k > 0 {
        lemma_count_identity(rs, k - 1);
    }
}

proof fn lemma_count_positive(rs: Seq<int>, l: int, k: int)
    requires
        0 <= l < k,
        rs[l] == l,
    ensures
        count_roots(rs, k) >= 1,
    decreases k,
{
    if k - 1 != l {
        lemma_count_positive(rs, l, k - 1);
    }
}

proof fn lemma_count_one_less(rs: Seq<int>, rs2: Seq<int>, l: int, k: int)
    requires
        0 <= l < k,
        rs[l] == l,
        rs2[l] != l,
        forall|i: int| 0 <= i < k && i != l ==> (rs2[i] == i <==> rs[i] == i),
    ensures
        count_roots(rs2, k) + 1 == count_roots(rs, k),
    decreases k,
{
    if k - 1 == l {
        lemma_count_same(rs, rs2, k - 1);
    } else {
        lemma_count_one_less(rs, rs2, l, k - 1);
    }
}

proof fn lemma_count_same(rs: Seq<int>, rs2: Seq<int>, k: int)
    requires
        forall|i: int| 0 <= i < k ==> (rs2[i] == i <==> rs[i] == i),
    ensures
        count_roots(rs2, k) == count_roots(rs, k),
    decreases k,
{
    if k > 0 {
        lemma_count_same(rs, rs2, k - 1);
    }
}

/// `rs` with the set rooted at `loser` moved under `winner`.
spec fn relinked(rs: Seq<int>, loser: int, winner: int) -> Seq<int> {
    Seq::new(rs.len(), |i: int| if rs[i] == loser { winner } else { rs[i] })
}

/// Disjoint sets over `0..n` with path compression and union by rank.
struct UnionFind {
    parent: Vec<usize>,
    rank: Vec<usize>,
    /// The representative of each element.
    root_of: Ghost<Seq<int>>,
    /// Successful unions so far.
    merges: Ghost<nat>,
}

impl UnionFind {
    spec fn size(self) -> int {
        self.parent@.len() as int
    }

    spec fn node_ok(self, x: int) -> bool {
        let n = self.size();
        let p = self.parent@[x] as int;
        let r = self.root_of@[x];
        &&& p < n
        &&& 0 <= r < n
        &&& self.root_of@[r] == r
        &&& (p == x <==> r == x)
        &&& self.root_of@[p] == r
        &&& (p != x ==> self.rank@[x] < self.rank@[p])
        &&& (r != x ==> self.rank@[x] < self.rank@[r])
        &&& self.rank@[x] <= self.merges@
    }

    spec fn wf(self) -> bool {
        &&& self.rank@.len() == self.size()
        &&& self.root_of@.len() == self.size()
        &&& self.merges@ + count_roots(self.root_of@, self.size()) == self.size()
        &&& forall|x: int| 0 <= x < self.size() ==> #[trigger] self.node_ok(x)
    }

    fn new(n: usize) -> (uf: UnionFind)
        ensures
            uf.wf(),
            uf.size() == n,
            forall|x: int| 0 <= x < n ==> uf.root_of@[x] == x,
    {
        let mut parent: Vec<usize> = Vec::new();
        let mut rank: Vec<usize> = Vec::new();
        let mut i: usize = 0;
        while i < n
            invariant
                0 <= i <= n,
                parent@.len() == i,
                rank@.len() == i,
                forall|x: int| 0 <= x < i ==> parent@[x] == x && rank@[x] == 0,
            decreases n - i,
        {
            parent.push(i);
            rank.push(0);
            i = i + 1;
        }
        let ghost rs = Seq::new(n as nat, |x: int| x);
        proof { lemma_count_identity(rs, n as int); }
        let uf = UnionFind { parent, rank, root_of: Ghost(rs), merges: Ghost(0nat) };
        assert forall|x: int| 0 <= x < uf.size() implies #[trigger] uf.node_ok(x) by {}
        uf
    }

    /// The representative of `x`; compresses the path from `x` to it.
    fn find(&mut self, x: usize) -> (r: usize)
        requires
            old(self).wf(),
            x < old(self).size(),
        ensures
            final(self).wf(),
            final(self).size() == old(self).size(),
            final(self).root_of@ == old(self).root_of@,
            r == old(self).root_of@[x as int],
    {
        let ghost target = self.root_of@[x as int];
        let mut root = x;
        proof { assert(self.node_ok(x as int)); }
        while self.parent[root] != root
            invariant
                self.wf(),
                root < self.size(),
                self.root_of@[root as int] == target,
                0 <= target < self.size(),
            decreases self.rank@[target] - self.rank@[root as int],
        {
            proof {
                assert(self.node_ok(root as int));
                assert(self.node_ok(self.parent@[root as int] as int));
            }
            root = self.parent[root];
        }
        proof { assert(self.node_ok(root as int)); }
        let ghost rs = self.root_of@;
        let mut y = x;
        while self.parent[y] != root
            invariant
                self.wf(),
                self.root_of@ == rs,
                y < self.size(),
                root < self.size(),
                root == target,
                rs[root as int] == root,
                self.parent@[root as int] == root,
                rs[y as int] == root,
            decreases self.rank@[root as int] - self.rank@[y as int],
        {
            proof { assert(self.node_ok(y as int)); }
            let next = self.parent[y];
            let ghost before = *self;
            self.parent.set(y, root);
            proof {
                assert forall|z: int| 0 <= z < self.size() implies #[trigger] self.node_ok(z) by {
                    assert(before.node_ok(z));
                }
                assert(before.node_ok(next as int));
            }
            y = next;
        }
        root
    }

    /// Move the set rooted at `loser` under the root `winner`, raising
    /// `winner`'s rank by one when `bump`.
    fn attach(&mut self, loser: usize, winner: usize, bump: bool)
        requires
            old(self).wf(),
            loser < old(self).size(),
            winner < old(self).size(),
            loser != winner,
            old(self).root_of@[loser as int] == loser,
            old(self).root_of@[winner as int] == winner,
            bump ==> old(self).rank@[loser as int] == old(self).rank@[winner as int],
            !bump ==> old(self).rank@[loser as int] < old(self).rank@[winner as int],
        ensures
            final(self).wf(),
            final(self).size() == old(self).size(),
            final(self).root_of@ == relinked(old(self).root_of@, loser as int, winner as int),
    {
        let ghost before = *self;
        let ghost rs = self.root_of@;
        let ghost rs2 = relinked(rs, loser as int, winner as int);
        proof {
            assert(self.node_ok(loser as int));
            assert(self.node_ok(winner as int));
            lemma_count_positive(rs, winner as int, self.size());
            assert forall|i: int| 0 <= i < self.size() && i != loser implies (rs2[i] == i <==> rs[i] == i) by {
                assert(self.node_ok(i));
            }
            lemma_count_one_less(rs, rs2, loser as int, self.size());
        }
        if bump {
            let rk = self.rank[winner];
            // A rank never exceeds the merges so far, which are fewer than the nodes.
            proof { assert(rk < self.parent.len()); }
            self.rank.set(winner, rk + 1);
        }
        self.parent.set(loser, winner);
        self.root_of = Ghost(rs2);
        self.merges = Ghost(before.merges@ + 1);
        proof {
            assert forall|z: int| 0 <= z < self.size() implies #[trigger] self.node_ok(z) by {
                assert(before.node_ok(z));
                assert(before.node_ok(before.parent@[z] as int));
            }
        }
    }

    /// Merge the sets of `a` and `b`.
    fn union(&mut self, a: usize, b: usize)
        requires
            old(self).wf(),
            a < old(self).size(),
            b < old(self).size(),
        ensures
            final(self).wf(),
            final(self).size() == old(self).size(),
            forall|x: int, y: int| 0 <= x < old(self).size() && 0 <= y < old(self).size() ==>
                (#[trigger] final(self).root_of@[x] == #[trigger] final(self).root_of@[y] <==> {
                    let rs = old(self).root_of@;
                    ||| rs[x] == rs[y]
                    ||| (rs[x] == rs[a as int] || rs[x] == rs[b as int]) && (rs[y] == rs[a as int] || rs[y] == rs[b as int])
                }),
    {
        let ghost rs = self.root_of@;
        let ra = self.find(a);
        let rb = self.find(b);
        if ra == rb {
            return;
        }
        proof {
            assert(self.node_ok(a as int));
            assert(self.node_ok(b as int));
        }
        let rank_a = self.rank[ra];
        let rank_b = self.rank[rb];
        if rank_a < rank_b {
            self.attach(ra, rb, false);
        } else if rank_a > rank_b {
            self.attach(rb, ra, false);
        } else {
            self.attach(rb, ra, true);
        }
    }
}

/// The access keys of each transaction of a block.
pub open spec fn block_keys(txs: Seq<TxAccess>) -> Seq<Seq<AccessKey>> {
    txs.map_values(|t: TxAccess| spec_access_keys(t))
}

/// Transactions `a` and `b` touch a common key.
pub open spec fn shares_key(keys: Seq<Seq<AccessKey>>, a: int, b: int) -> bool {
    exists|k: AccessKey| keys[a].contains(k) && keys[b].contains(k)
}

/// `p` is a non-empty walk through transactions, each step between two
/// transactions that share a key.
pub open spec fn is_chain(keys: Seq<Seq<AccessKey>>, p: Seq<int>) -> bool {
    &&& p.len() >= 1
    &&& forall|i: int| 0 <= i < p.len() ==> 0 <= #[trigger] p[i] < keys.len()
    &&& forall|i: int| 0 <= i < p.len() - 1 ==> #[trigger] shares_key(keys, p[i], p[i + 1])
}

/// Transactions `a` and `b` are linked by a chain of shared keys.
pub open spec fn connected(keys: Seq<Seq<AccessKey>>, a: int, b: int) -> bool {
    exists|p: Seq<int>| #[trigger] is_chain(keys, p) && p[0] == a && p[p.len() - 1] == b
}

/// `groups` partitions the transactions `0..keys.len()` into the connected
/// components of the shares-a-key relation: every transaction in exactly
/// one group, each group non-empty and in block order, groups ordered by
/// their first transaction, and two transactions in the same group exactly
/// when a chain of shared keys links them.
pub open spec fn is_conflict_partition(keys: Seq<Seq<AccessKey>>, groups: Seq<Seq<usize>>) -> bool {
    &&& forall|g: int| 0 <= g < groups.len() ==> #[trigger] groups[g].len() > 0
    &&& forall|g: int, a: int, b: int| 0 <= g < groups.len() && 0 <= a < b < groups[g].len() ==>
        #[trigger] groups[g][a] < #[trigger] groups[g][b]
    &&& forall|g: int, a: int| 0 <= g < groups.len() && 0 <= a < groups[g].len() ==> #[trigger] groups[g][a] < keys.len()
    &&& forall|g1: int, g2: int| 0 <= g1 < g2 < groups.len() ==> #[trigger] groups[g1][0] < #[trigger] groups[g2][0]
    &&& forall|t: int| 0 <= t < keys.len() ==> #[trigger] in_some_group(groups, t)
    &&& forall|g1: int, a1: int, g2: int, a2: int|
        0 <= g1 < groups.len() && 0 <= a1 < groups[g1].len() && 0 <= g2 < groups.len() && 0 <= a2 < groups[g2].len() ==>
        (g1 == g2 <==> connected(keys, #[trigger] groups[g1][a1] as int, #[trigger] groups[g2][a2] as int))
}

/// Transaction `t` is listed in some group.
pub open spec fn in_some_group(groups: Seq<Seq<usize>>, t: int) -> bool {
    exists|g: int, a: int| 0 <= g < groups.len() && 0 <= a < groups[g].len() && groups[g][a] == t
}

proof fn lemma_connected_refl(keys: Seq<Seq<AccessKey>>, a: int)
    requires
        0 <= a < keys.len(),
    ensures
        connected(keys, a, a),
{
    let p = seq![a];
    assert(is_chain(keys, p));
}

proof fn lemma_connected_step(keys: Seq<Seq<AccessKey>>, a: int, b: int, k: AccessKey)
    requires
        0 <= a < keys.len(),
        0 <= b < keys.len(),
        keys[a].contains(k),
        keys[b].contains(k),
    ensures
        connected(keys, a, b),
{
    let p = seq![a, b];
    assert(shares_key(keys, p[0], p[1]));
    assert(is_chain(keys, p));
}

proof fn lemma_connected_sym(keys: Seq<Seq<AccessKey>>, a: int, b: int)
    requires
        connected(keys, a, b),
    ensures
        connected(keys, b, a),
{
    let p = choose|p: Seq<int>| #[trigger] is_chain(keys, p) && p[0] == a && p[p.len() - 1] == b;
    let q = p.reverse();
    assert forall|i: int| 0 <= i < q.len() - 1 implies #[trigger] shares_key(keys, q[i], q[i + 1]) by {
        let j = p.len() - 2 - i;
        assert(shares_key(keys, p[j], p[j + 1]));
        let k = choose|k: AccessKey| keys[p[j]].contains(k) && keys[p[j + 1]].contains(k);
        assert(keys[q[i]].contains(k) && keys[q[i + 1]].contains(k));
    }
    assert forall|i: int| 0 <= i < q.len() implies 0 <= #[trigger] q[i] < keys.len() by {
        assert(0 <= p[p.len() - 1 - i] < keys.len());
    }
    assert(is_chain(keys, q));
}

proof fn lemma_connected_trans(keys: Seq<Seq<AccessKey>>, a: int, b: int, c: int)
    requires
        connected(keys, a, b),
        connected(keys, b, c),
    ensures
        connected(keys, a, c),
{
    let p = choose|p: Seq<int>| #[trigger] is_chain(keys, p) && p[0] == a && p[p.len() - 1] == b;
    let q = choose|q: Seq<int>| #[trigger] is_chain(keys, q) && q[0] == b && q[q.len() - 1] == c;
    let r = p + q.skip(1);
    assert forall|i: int| 0 <= i < r.len() implies 0 <= #[trigger] r[i] < keys.len() by {
        if i < p.len() {
            assert(0 <= p[i] < keys.len());
        } else {
            assert(0 <= q[i - p.len() + 1] < keys.len());
        }
    }
    assert forall|i: int| 0 <= i < r.len() - 1 implies #[trigger] shares_key(keys, r[i], r[i + 1]) by {
        if i < p.len() - 1 {
            assert(shares_key(keys, p[i], p[i + 1]));
        } else {
            let j = i - p.len() + 1;
            assert(shares_key(keys, q[j], q[j + 1]));
        }
    }
    assert(is_chain(keys, r));
}

/// Along a chain, a relation that every shared key respects holds end to end.
proof fn lemma_chain_same_root(keys: Seq<Seq<AccessKey>>, rs: Seq<int>, p: Seq<int>)
    requires
        is_chain(keys, p),
        forall|a: int, b: int| 0 <= a < keys.len() && 0 <= b < keys.len() && #[trigger] shares_key(keys, a, b) ==> rs[a] == rs[b],
    ensures
        rs[p[0]] == rs[p[p.len() - 1]],
    decreases p.len(),
{
    if p.len() > 1 {
        let q = p.drop_last();
        assert(is_chain(keys, q)) by {
            assert forall|i: int| 0 <= i < q.len() implies 0 <= #[trigger] q[i] < keys.len() by {
                assert(0 <= p[i] < keys.len());
            }
            assert forall|i: int| 0 <= i < q.len() - 1 implies #[trigger] shares_key(keys, q[i], q[i + 1]) by {
                assert(shares_key(keys, p[i], p[i + 1]));
            }
        }
        lemma_chain_same_root(keys, rs, q);
        let m = p.len() - 2;
        assert(shares_key(keys, p[m], p[m + 1]));
        assert(0 <= p[m] < keys.len() && 0 <= p[m + 1] < keys.len());
    }
}

/// Index of the table entry for `key`, if any.
fn first_user(table: &Vec<(AccessKey, usize)>, key: &AccessKey) -> (r: Option<usize>)
    ensures
        match r {
            Some(e) => e < table@.len() && table@[e as int].0 == *key,
            None => forall|e: int| 0 <= e < table@.len() ==> #[trigger] table@[e].0 != *key,
        },
{
    let mut e: usize = 0;
    while e < table.len()
        invariant
            0 <= e <= table@.len(),
            forall|f: int| 0 <= f < e ==> #[trigger] table@[f].0 != *key,
        decreases table@.len() - e,
    {
        if access_key_eq(&table[e].0, key) {
            return Some(e);
        }
        e = e + 1;
    }
    None
}

/// The keys of transaction `t` that have been entered so far (all keys of
/// the transactions before `i`, the first `j` keys of transaction `i`).
spec fn entered(keys: Seq<Seq<AccessKey>>, i: int, j: int, t: int, k: AccessKey) -> bool {
    ||| 0 <= t < i && keys[t].contains(k)
    ||| t == i && keys[i].take(j).contains(k)
}

/// Some table entry for `k` names a first user in the same set as `t`.
spec fn recorded(table: Seq<(AccessKey, usize)>, rs: Seq<int>, t: int, k: AccessKey) -> bool {
    exists|e: int| 0 <= e < table.len() && (#[trigger] table[e]).0 == k && rs[table[e].1 as int] == rs[t]
}

/// Partition a block into groups of transactions that must run one after
/// another: the connected components of the shares-a-key relation, each in
/// block order, ordered by their first transaction.
pub fn partition_transactions(txs: &Vec<TxAccess>) -> (groups: Vec<Vec<usize>>)
    ensures
        is_conflict_partition(block_keys(txs@), groups@.map_values(|g: Vec<usize>| g@)),
{
    let n = txs.len();
    let ghost keys = block_keys(txs@);
    if n == 0 {
        let groups: Vec<Vec<usize>> = Vec::new();
        assert(groups@.map_values(|g: Vec<usize>| g@) =~= Seq::<Seq<usize>>::empty());
        return groups;
    }
    let mut uf = UnionFind::new(n);
    proof {
        assert forall|x: int, y: int| 0 <= x < n && 0 <= y < n && #[trigger] uf.root_of@[x] == #[trigger] uf.root_of@[y]
            implies connected(keys, x, y) by {
            lemma_connected_refl(keys, x);
        }
    }
    let mut table: Vec<(AccessKey, usize)> = Vec::new();
    let mut i: usize = 0;
    while i < n
        invariant
            0 <= i <= n,
            n == txs@.len(),
            keys == block_keys(txs@),
            keys.len() == n,
            uf.wf(),
            uf.size() == n,
            forall|e: int| 0 <= e < table@.len() ==> (#[trigger] table@[e]).1 < i && keys[table@[e].1 as int].contains(table@[e].0),
            forall|e1: int, e2: int| 0 <= e1 < e2 < table@.len() ==> (#[trigger] table@[e1]).0 != (#[trigger] table@[e2]).0,
            forall|t: int, k: AccessKey| #[trigger] entered(keys, i as int, 0, t, k) ==> recorded(table@, uf.root_of@, t, k),
            forall|x: int, y: int| 0 <= x < n && 0 <= y < n && #[trigger] uf.root_of@[x] == #[trigger] uf.root_of@[y] ==> connected(keys, x, y),
        decreases n - i,
    {
        let ks = extract_access_keys(&txs[i]);
        assert(ks@ == keys[i as int]);
        let mut j: usize = 0;
        while j < ks.len()
            invariant
                0 <= i < n,
                0 <= j <= ks@.len(),
                ks@ == keys[i as int],
                keys.len() == n,
                uf.wf(),
                uf.size() == n,
                forall|e: int| 0 <= e < table@.len() ==> (#[trigger] table@[e]).1 <= i && keys[table@[e].1 as int].contains(table@[e].0),
                forall|e1: int, e2: int| 0 <= e1 < e2 < table@.len() ==> (#[trigger] table@[e1]).0 != (#[trigger] table@[e2]).0,
                forall|t: int, k: AccessKey| #[trigger] entered(keys, i as int, j as int, t, k) ==> recorded(table@, uf.root_of@, t, k),
                forall|x: int, y: int| 0 <= x < n && 0 <= y < n && #[trigger] uf.root_of@[x] == #[trigger] uf.root_of@[y] ==> connected(keys, x, y),
            decreases ks@.len() - j,
        {
            let key = ks[j];
            let ghost rs = uf.root_of@;
            let ghost old_table = table@;
            match first_user(&table, &key) {
                Some(e) => {
                    let f = table[e].1;
                    proof {
                        assert(keys[i as int].contains(key)) by { assert(keys[i as int][j as int] == key); }
                        lemma_connected_step(keys, f as int, i as int, key);
                    }
                    uf.union(f, i);
                    proof {
                        let rs2 = uf.root_of@;
                        assert forall|x: int, y: int| 0 <= x < n && 0 <= y < n && #[trigger] rs2[x] == #[trigger] rs2[y]
                            implies connected(keys, x, y) by {
                            if rs[x] != rs[y] {
                                let fx = if rs[x] == rs[f as int] { f as int } else { i as int };
                                let fy = if rs[y] == rs[f as int] { f as int } else { i as int };
                                lemma_connected_refl(keys, f as int);
                                lemma_connected_refl(keys, i as int);
                                lemma_connected_sym(keys, f as int, i as int);
                                assert(connected(keys, x, fx));
                                assert(connected(keys, fx, fy));
                                assert(connected(keys, fy, y)) by { lemma_connected_sym(keys, y, fy); }
                                lemma_connected_trans(keys, x, fx, fy);
                                lemma_connected_trans(keys, x, fy, y);
                            }
                        }
                        assert forall|t: int, k: AccessKey| #[trigger] entered(keys, i as int, j + 1, t, k)
                            implies recorded(table@, rs2, t, k) by {
                            if t == i && k == key {
                                assert(table@[e as int].0 == k && rs2[f as int] == rs2[t]);
                            } else {
                                if t == i {
                                    let m = choose|m: int| 0 <= m < keys[i as int].take(j + 1).len() && #[trigger] keys[i as int].take(j + 1)[m] == k;
                                    assert(m < j);
                                    assert(keys[i as int].take(j as int)[m] == k);
                                }
                                assert(entered(keys, i as int, j as int, t, k));
                                let w = choose|w: int| 0 <= w < table@.len() && (#[trigger] table@[w]).0 == k && rs[table@[w].1 as int] == rs[t];
                                assert(0 <= t < n) by {
                                    if t != i {
                                        assert(0 <= t < i);
                                    }
                                }
                                assert(rs2[table@[w].1 as int] == rs2[t]);
                            }
                        }
                    }
                },
                None => {
                    table.push((key, i));
                    proof {
                        assert(keys[i as int].contains(key)) by { assert(keys[i as int][j as int] == key); }
                        assert forall|e1: int, e2: int| 0 <= e1 < e2 < table@.len() implies (#[trigger] table@[e1]).0 != (#[trigger] table@[e2]).0 by {
                            if e2 == old_table.len() {
                                assert(old_table[e1].0 != key);
                            } else {
                                assert(old_table[e1] == table@[e1] && old_table[e2] == table@[e2]);
                            }
                        }
                        assert forall|t: int, k: AccessKey| #[trigger] entered(keys, i as int, j + 1, t, k)
                            implies recorded(table@, rs, t, k) by {
                            if t == i && k == key {
                                let w = old_table.len() as int;
                                assert(table@[w].0 == k && rs[table@[w].1 as int] == rs[t]);
                            } else {
                                if t == i {
                                    let m = choose|m: int| 0 <= m < keys[i as int].take(j + 1).len() && #[trigger] keys[i as int].take(j + 1)[m] == k;
                                    assert(m < j);
                                    assert(keys[i as int].take(j as int)[m] == k);
                                }
                                assert(entered(keys, i as int, j as int, t, k));
                                let w = choose|w: int| 0 <= w < old_table.len() && (#[trigger] old_table[w]).0 == k && rs[old_table[w].1 as int] == rs[t];
                                assert(table@[w] == old_table[w]);
                            }
                        }
                    }
                },
            }
            j = j + 1;
        }
        proof {
            assert(ks@.take(ks@.len() as int) =~= ks@);
            assert forall|t: int, k: AccessKey| #[trigger] entered(keys, i + 1, 0, t, k)
                implies recorded(table@, uf.root_of@, t, k) by {
                assert(entered(keys, i as int, j as int, t, k));
            }
        }
        i = i + 1;
    }
    // Every shared key puts both transactions in one set.
    let ghost rs = uf.root_of@;
    proof {
        assert forall|a: int, b: int| 0 <= a < keys.len() && 0 <= b < keys.len() && #[trigger] shares_key(keys, a, b)
            implies rs[a] == rs[b] by {
            let k = choose|k: AccessKey| keys[a].contains(k) && keys[b].contains(k);
            assert(entered(keys, n as int, 0, a, k));
            assert(entered(keys, n as int, 0, b, k));
            let wa = choose|w: int| 0 <= w < table@.len() && (#[trigger] table@[w]).0 == k && rs[table@[w].1 as int] == rs[a];
            let wb = choose|w: int| 0 <= w < table@.len() && (#[trigger] table@[w]).0 == k && rs[table@[w].1 as int] == rs[b];
            if wa != wb {
                if wa < wb {
                    assert(table@[wa].0 != table@[wb].0);
                } else {
                    assert(table@[wb].0 != table@[wa].0);
                }
            }
        }
    }
    collect_groups(&mut uf, Ghost(keys))
}

/// Group `0..n` by representative, in order of first appearance.
fn collect_groups(uf: &mut UnionFind, keys: Ghost<Seq<Seq<AccessKey>>>) -> (groups: Vec<Vec<usize>>)
    requires
        old(uf).wf(),
        old(uf).size() == keys@.len(),
        forall|x: int, y: int| 0 <= x < keys@.len() && 0 <= y < keys@.len()
            && #[trigger] old(uf).root_of@[x] == #[trigger] old(uf).root_of@[y] ==> connected(keys@, x, y),
        forall|a: int, b: int| 0 <= a < keys@.len() && 0 <= b < keys@.len() && #[trigger] shares_key(keys@, a, b)
            ==> old(uf).root_of@[a] == old(uf).root_of@[b],
    ensures
        is_conflict_partition(keys@, groups@.map_values(|g: Vec<usize>| g@)),
{
    let n = uf.parent.len();
    let ghost rs = uf.root_of@;
    let mut slot: Vec<Option<usize>> = Vec::new();
    let mut k: usize = 0;
    while k < n
        invariant
            0 <= k <= n,
            slot@.len() == k,
            forall|r: int| 0 <= r < k ==> slot@[r] is None,
        decreases n - k,
    {
        slot.push(None);
        k = k + 1;
    }
    let mut groups: Vec<Vec<usize>> = Vec::new();
    let ghost mut roots: Seq<int> = Seq::empty();
    let mut i: usize = 0;
    while i < n
        invariant
            0 <= i <= n,
            n == uf.size(),
            uf.wf(),
            uf.root_of@ == rs,
            slot@.len() == n,
            groups@.len() == roots.len(),
            forall|g: int| 0 <= g < groups@.len() ==> (#[trigger] groups@[g])@.len() > 0,
            forall|g: int, a: int, b: int| 0 <= g < groups@.len() && 0 <= a < b < groups@[g]@.len() ==>
                #[trigger] groups@[g]@[a] < #[trigger] groups@[g]@[b],
            forall|g: int, a: int| 0 <= g < groups@.len() && 0 <= a < groups@[g]@.len() ==>
                #[trigger] groups@[g]@[a] < i && rs[groups@[g]@[a] as int] == roots[g],
            forall|g: int| 0 <= g < groups@.len() ==> 0 <= #[trigger] roots[g] < n && slot@[roots[g]] == Some(g as usize),
            forall|r: int| 0 <= r < n && (#[trigger] slot@[r]) is Some ==> slot@[r]->Some_0 < groups@.len() && roots[slot@[r]->Some_0 as int] == r,
            forall|t: int| 0 <= t < i ==> 0 <= #[trigger] rs[t] < n && slot@[rs[t]] is Some
                && groups@[slot@[rs[t]]->Some_0 as int]@.contains(t as usize),
            forall|g1: int, g2: int| 0 <= g1 < g2 < groups@.len() ==> #[trigger] groups@[g1]@[0] < #[trigger] groups@[g2]@[0],
        decreases n - i,
    {
        let r = uf.find(i);
        proof { assert(uf.node_ok(i as int)); }
        let ghost before = groups@;
        match slot[r] {
            None => {
                let g = groups.len();
                let mut fresh: Vec<usize> = Vec::new();
                fresh.push(i);
                groups.push(fresh);
                slot.set(r, Some(g));
                proof {
                    roots = roots.push(r as int);
                    assert forall|t: int| 0 <= t < i + 1 implies 0 <= #[trigger] rs[t] < n && slot@[rs[t]] is Some
                        && groups@[slot@[rs[t]]->Some_0 as int]@.contains(t as usize) by {
                        if t == i {
                            assert(groups@[g as int]@[0] == i);
                        } else {
                            assert(groups@[slot@[rs[t]]->Some_0 as int] == before[slot@[rs[t]]->Some_0 as int]);
                        }
                    }
                }
            },
            Some(g) => {
                groups[g].push(i);
                proof {
                    assert forall|t: int| 0 <= t < i + 1 implies 0 <= #[trigger] rs[t] < n && slot@[rs[t]] is Some
                        && groups@[slot@[rs[t]]->Some_0 as int]@.contains(t as usize) by {
                        if t == i {
                            assert(groups@[g as int]@[groups@[g as int]@.len() - 1] == i);
                        } else {
                            let h = slot@[rs[t]]->Some_0 as int;
                            if h == g {
                                let a = choose|a: int| 0 <= a < before[h]@.len() && before[h]@[a] == t as usize;
                                assert(groups@[h]@[a] == t as usize);
                            } else {
                                assert(groups@[h] == before[h]);
                            }
                        }
                    }
                    assert forall|g1: int, g2: int| 0 <= g1 < g2 < groups@.len() implies #[trigger] groups@[g1]@[0] < #[trigger] groups@[g2]@[0] by {
                        assert(groups@[g1]@[0] == before[g1]@[0]);
                        assert(groups@[g2]@[0] == before[g2]@[0]);
                    }
                }
            },
        }
        i = i + 1;
    }
    let ghost gv = groups@.map_values(|g: Vec<usize>| g@);
    let count = groups.len();
    proof {
        assert forall|g: int| 0 <= g < gv.len() implies #[trigger] gv[g] == groups@[g]@ by {}
        assert forall|t: int| 0 <= t < keys@.len() implies #[trigger] in_some_group(gv, t) by {
            let h = slot@[rs[t]]->Some_0 as int;
            let a = choose|a: int| 0 <= a < groups@[h]@.len() && groups@[h]@[a] == t as usize;
            assert(gv[h][a] == t);
        }
        assert forall|g1: int, a1: int, g2: int, a2: int|
            0 <= g1 < gv.len() && 0 <= a1 < gv[g1].len() && 0 <= g2 < gv.len() && 0 <= a2 < gv[g2].len() implies
            (g1 == g2 <==> connected(keys@, #[trigger] gv[g1][a1] as int, #[trigger] gv[g2][a2] as int)) by {
            let x = gv[g1][a1] as int;
            let y = gv[g2][a2] as int;
            assert(groups@[g1]@[a1] == x && groups@[g2]@[a2] == y);
            assert(rs[x] == roots[g1] && rs[y] == roots[g2]);
            assert(0 <= x < keys@.len() && 0 <= y < keys@.len());
            if g1 == g2 {
                assert(old(uf).root_of@[x] == old(uf).root_of@[y]);
                assert(connected(keys@, x, y));
            }
            if connected(keys@, x, y) {
                let p = choose|p: Seq<int>| #[trigger] is_chain(keys@, p) && p[0] == x && p[p.len() - 1] == y;
                lemma_chain_same_root(keys@, rs, p);
                assert(roots[g1] == roots[g2]);
                assert(slot@[roots[g1]] == Some(g1 as usize));
                assert(slot@[roots[g2]] == Some(g2 as usize));
                assert(g1 < count && g2 < count);
                assert(g1 as usize == g1 && g2 as usize == g2);
            }
        }
        assert forall|g: int, a: int, b: int| 0 <= g < gv.len() && 0 <= a < b < gv[g].len() implies
            #[trigger] gv[g][a] < #[trigger] gv[g][b] by {
            assert(groups@[g]@[a] < groups@[g]@[b]);
        }
        assert forall|g: int, a: int| 0 <= g < gv.len() && 0 <= a < gv[g].len() implies #[trigger] gv[g][a] < keys@.len() by {
            assert(groups@[g]@[a] < n);
        }
        assert forall|g1: int, g2: int| 0 <= g1 < g2 < gv.len() implies #[trigger] gv[g1][0] < #[trigger] gv[g2][0] by {
            assert(groups@[g1]@[0] < groups@[g2]@[0]);
        }
        assert forall|g: int| 0 <= g < gv.len() implies #[trigger] gv[g].len() > 0 by {
            assert(groups@[g]@.len() > 0);
        }
    }
    groups
}

/// Transactions the parallel executor keeps out of the partitions and runs
/// one by one after them: contract, script, privacy and deferred
/// transactions, validator exits and stake claims, key rotations and refunds.
pub open spec fn spec_runs_serially(tx: TxAccess) -> bool {
    match tx {
        TxAccess::DeployContract { .. } | TxAccess::CallContract { .. } | TxAccess::DeployScript { .. }
        | TxAccess::CallScript { .. } | TxAccess::Shield { .. } | TxAccess::Unshield { .. }
        | TxAccess::PrivateTransfer | TxAccess::Deferred { .. } | TxAccess::ValidatorExit { .. }
        | TxAccess::ValidatorClaimStake { .. } | TxAccess::RotateValidatorKey { .. }
        | TxAccess::Refund { .. } => true,
        _ => false,
    }
}

/// Whether the parallel executor runs `tx` in its serial phase.
pub fn runs_serially(tx: &TxAccess) -> (r: bool)
    ensures
        r == spec_runs_serially(*tx),
{
    match tx {
        TxAccess::DeployContract { .. } | TxAccess::CallContract { .. } | TxAccess::DeployScript { .. }
        | TxAccess::CallScript { .. } | TxAccess::Shield { .. } | TxAccess::Unshield { .. }
        | TxAccess::PrivateTransfer | TxAccess::Deferred { .. } | TxAccess::ValidatorExit { .. }
        | TxAccess::ValidatorClaimStake { .. } | TxAccess::RotateValidatorKey { .. }
        | TxAccess::Refund { .. } => true,
        _ => false,
    }
}

/// The indices below `k` of the transactions in the serial lane (`serial`)
/// or the parallel lane (`!serial`), in block order.
pub open spec fn lane(txs: Seq<TxAccess>, serial: bool, k: int) -> Seq<usize>
    decreases k,
{
    if k <= 0 {
        Seq::empty()
    } else if spec_runs_serially(txs[k - 1]) == serial {
        lane(txs, serial, k - 1).push((k - 1) as usize)
    } else {
        lane(txs, serial, k - 1)
    }
}

/// Split a block into the transactions to partition and the transactions
/// to run serially, each list in block order.
pub fn split_lanes(txs: &Vec<TxAccess>) -> (r: (Vec<usize>, Vec<usize>))
    ensures
        r.0@ == lane(txs@, false, txs@.len() as int),
        r.1@ == lane(txs@, true, txs@.len() as int),
{
    let mut parallel: Vec<usize> = Vec::new();
    let mut serial: Vec<usize> = Vec::new();
    let mut i: usize = 0;
    while i < txs.len()
        invariant
            0 <= i <= txs@.len(),
            parallel@ == lane(txs@, false, i as int),
            serial@ == lane(txs@, true, i as int),
        decreases txs@.len() - i,
    {
        if runs_serially(&txs[i]) {
            serial.push(i);
        } else {
            parallel.push(i);
        }
        i = i + 1;
    }
    (parallel, serial)
}

/// Each partition's share of the block gas limit: the limit divided evenly
/// (at least one partition assumed), or no bound when the limit is zero.
pub open spec fn spec_partition_gas(block_gas_limit: u64, partitions: usize) -> u64 {
    if block_gas_limit > 0 {
        (block_gas_limit / if partitions > 0 { partitions as u64 } else { 1u64 }) as u64
    } else {
        u64::MAX
    }
}

/// The gas budget each partition starts with. The shares of all partitions
/// together never exceed a non-zero block limit.
pub fn per_partition_gas(block_gas_limit: u64, partitions: usize) -> (budget: u64)
    ensures
        budget == spec_partition_gas(block_gas_limit, partitions),
        block_gas_limit > 0 ==> budget * partitions <= block_gas_limit,
{
    if block_gas_limit > 0 {
        let n: u64 = if partitions > 0 { partitions as u64 } else { 1 };
        let budget = block_gas_limit / n;
        proof {
            let l = block_gas_limit as int;
            let d = n as int;
            assert((l / d) * d <= l) by (nonlinear_arith)
                requires d > 0, l >= 0;
            if partitions == 0 {
                assert(budget * partitions == 0);
            }
        }
        budget
    } else {
        u64::MAX
    }
}

/// Sort keys that put outcomes in ascending block position (a larger key
/// sorts first).
pub open spec fn position_keys(indexed: Seq<(usize, TxOutcome)>) -> Seq<u64> {
    indexed.map_values(|p: (usize, TxOutcome)| (u64::MAX - p.0) as u64)
}

/// Put outcomes gathered from the partitions and the serial phase back in
/// block order: a stable sort by block position.
pub fn outcomes_in_block_order(indexed: &Vec<(usize, TxOutcome)>) -> (outcomes: Vec<TxOutcome>)
    requires
        forall|i: int| 0 <= i < indexed@.len() ==> (#[trigger] indexed@[i]).0 <= u64::MAX,
    ensures
        exists|order: Seq<usize>| is_desc_stable_order(position_keys(indexed@), order)
            && outcomes@.len() == order.len()
            && forall|i: int| 0 <= i < order.len() ==> #[trigger] outcomes@[i] == indexed@[order[i] as int].1,
{
    let mut keys: Vec<u64> = Vec::new();
    let mut k: usize = 0;
    while k < indexed.len()
        invariant
            0 <= k <= indexed@.len(),
            forall|i: int| 0 <= i < indexed@.len() ==> (#[trigger] indexed@[i]).0 <= u64::MAX,
            keys@ == position_keys(indexed@).take(k as int),
        decreases indexed@.len() - k,
    {
        let pos = indexed[k].0 as u64;
        keys.push(u64::MAX - pos);
        proof { assert(keys@ =~= position_keys(indexed@).take(k + 1)); }
        k = k + 1;
    }
    assert(keys@ =~= position_keys(indexed@));
    let order = desc_stable_order(&keys);
    let mut outcomes: Vec<TxOutcome> = Vec::new();
    let mut i: usize = 0;
    while i < order.len()
        invariant
            0 <= i <= order@.len(),
            is_desc_stable_order(position_keys(indexed@), order@),
            outcomes@.len() == i,
            forall|j: int| 0 <= j < i ==> #[trigger] outcomes@[j] == indexed@[order@[j] as int].1,
        decreases order@.len() - i,
    {
        outcomes.push(indexed[order[i]].1);
        i = i + 1;
    }
    outcomes
}

/// Largest length among `groups`.
pub open spec fn max_group_len(groups: Seq<Seq<usize>>) -> nat
    decreases groups.len(),
{
    if groups.len() == 0 {
        0
    } else {
        let rest = max_group_len(groups.drop_last());
        if groups.last().len() > rest { groups.last().len() } else { rest }
    }
}

/// How far a block parallelizes: the number of conflict-free groups and the
/// size of the largest (both zero for an empty block). The ratio of the
/// block's length to the largest group measures the attainable speed-up.
pub fn partition_shape(txs: &Vec<TxAccess>) -> (r: (usize, usize))
    ensures
        exists|groups: Seq<Seq<usize>>| #[trigger] is_conflict_partition(block_keys(txs@), groups)
            && r.0 == groups.len() && r.1 == max_group_len(groups),
{
    let groups = partition_transactions(txs);
    let ghost gv = groups@.map_values(|g: Vec<usize>| g@);
    let mut largest: usize = 0;
    let mut i: usize = 0;
    while i < groups.len()
        invariant
            0 <= i <= groups@.len(),
            gv == groups@.map_values(|g: Vec<usize>| g@),
            largest == max_group_len(gv.take(i as int)),
        decreases groups@.len() - i,
    {
        proof { assert(gv.take(i + 1).drop_last() =~= gv.take(i as int)); }
        let len = groups[i].len();
        if len > largest {
            largest = len;
        }
        i = i + 1;
    }
    assert(gv.take(groups@.len() as int) =~= gv);
    (groups.len(), largest)
}

/// Every account a transaction debits or credits, every object it creates
/// or refreshes, and every global engine it uses is among its access keys,
/// and it has no others.
pub proof fn law_access_keys_per_kind(tx: TxAccess)
    ensures
        match tx {
            TxAccess::Transfer { from, to } => {
                let ks = spec_access_keys(tx);
                ks.contains(AccessKey::Account(from)) && ks.contains(AccessKey::Account(to)) && ks.len() == 2
            },
            TxAccess::CreateObject { creator, object_id } => {
                let ks = spec_access_keys(tx);
                ks.contains(AccessKey::Account(creator)) && ks.contains(AccessKey::Object(object_id)) && ks.len() == 2
            },
            TxAccess::Refresh { object_id } => spec_access_keys(tx) == seq![AccessKey::Object(object_id)],
            TxAccess::DeployContract { deployer } => {
                let ks = spec_access_keys(tx);
                ks.contains(AccessKey::Account(deployer)) && ks.contains(AccessKey::ContractEngine) && ks.len() == 2
            },
            TxAccess::CallContract { caller } => {
                let ks = spec_access_keys(tx);
                ks.contains(AccessKey::Account(caller)) && ks.contains(AccessKey::ContractEngine) && ks.len() == 2
            },
            TxAccess::DeployScript { deployer } => {
                let ks = spec_access_keys(tx);
                ks.contains(AccessKey::Account(deployer)) && ks.contains(AccessKey::ScriptEngine) && ks.len() == 2
            },
            TxAccess::CallScript { caller } => {
                let ks = spec_access_keys(tx);
                ks.contains(AccessKey::Account(caller)) && ks.contains(AccessKey::ScriptEngine) && ks.len() == 2
            },
            TxAccess::ValidatorStake { validator_address } => spec_access_keys(tx) == seq![AccessKey::Account(validator_address)],
            TxAccess::ValidatorExit { validator_address } => spec_access_keys(tx) == seq![AccessKey::Account(validator_address)],
            TxAccess::ValidatorClaimStake { validator_address } => spec_access_keys(tx) == seq![AccessKey::Account(validator_address)],
            TxAccess::Shield { from } => {
                let ks = spec_access_keys(tx);
                ks.contains(AccessKey::Account(from)) && ks.contains(AccessKey::PrivacyEngine) && ks.len() == 2
            },
            TxAccess::Unshield { to } => {
                let ks = spec_access_keys(tx);
                ks.contains(AccessKey::Account(to)) && ks.contains(AccessKey::PrivacyEngine) && ks.len() == 2
            },
            TxAccess::PrivateTransfer => spec_access_keys(tx) == seq![AccessKey::PrivacyEngine],
            TxAccess::Deferred { submitter } => {
                let ks = spec_access_keys(tx);
                ks.contains(AccessKey::Account(submitter)) && ks.contains(AccessKey::TemporalEngine) && ks.len() == 2
            },
            TxAccess::Blob { submitter } => spec_access_keys(tx) == seq![AccessKey::Account(submitter)],
            TxAccess::Governance { sender } => spec_access_keys(tx) == seq![AccessKey::Account(sender)],
            TxAccess::MultiSig { multisig_address } => spec_access_keys(tx) == seq![AccessKey::Account(multisig_address)],
            TxAccess::UserOp { sender, paymaster } => {
                let ks = spec_access_keys(tx);
                &&& ks.contains(AccessKey::Account(sender))
                &&& match paymaster {
                    Some(pm) => ks.contains(AccessKey::Account(pm)) && ks.len() == 2,
                    None => ks.len() == 1,
                }
            },
            TxAccess::UpgradeContract { owner } => spec_access_keys(tx) == seq![AccessKey::Account(owner)],
            TxAccess::Delegate { delegator } => spec_access_keys(tx) == seq![AccessKey::Account(delegator)],
            TxAccess::Undelegate { delegator } => spec_access_keys(tx) == seq![AccessKey::Account(delegator)],
            TxAccess::RotateValidatorKey { validator_address } => spec_access_keys(tx) == seq![AccessKey::Account(validator_address)],
            TxAccess::ClaimDelegation { delegator } => spec_access_keys(tx) == seq![AccessKey::Account(delegator)],
            TxAccess::Refund { attacker, victim } => {
                let ks = spec_access_keys(tx);
                ks.contains(AccessKey::Account(attacker)) && ks.contains(AccessKey::Account(victim)) && ks.len() == 2
            },
        },
{
    let ks = spec_access_keys(tx);
    match tx {
        TxAccess::UserOp { sender, paymaster } => {
            assert(ks[0] == AccessKey::Account(sender));
            if let Some(pm) = paymaster { assert(ks[1] == AccessKey::Account(pm)); }
        },
        _ => {
            if ks.len() >= 1 { assert(ks.contains(ks[0])); }
            if ks.len() >= 2 { assert(ks.contains(ks[1])); }
        },
    }
}

/// Two transactions that use a common key (in particular, that write the
/// same account) land in the same group of a conflict partition, so they
/// run one after the other and never concurrently.
pub proof fn law_shared_key_same_group(
    txs: Seq<TxAccess>,
    groups: Seq<Seq<usize>>,
    k: AccessKey,
    g1: int, i1: int, g2: int, i2: int,
)
    requires
        is_conflict_partition(block_keys(txs), groups),
        0 <= g1 < groups.len(),
        0 <= i1 < groups[g1].len(),
        0 <= g2 < groups.len(),
        0 <= i2 < groups[g2].len(),
        spec_access_keys(txs[groups[g1][i1] as int]).contains(k),
        spec_access_keys(txs[groups[g2][i2] as int]).contains(k),
    ensures
        g1 == g2,
{
    let keys = block_keys(txs);
    let a = groups[g1][i1] as int;
    let b = groups[g2][i2] as int;
    assert(keys[a] == spec_access_keys(txs[a]));
    assert(keys[b] == spec_access_keys(txs[b]));
    lemma_connected_step(keys, a, b, k);
}


/// Contract and script work, privacy work, deferred submissions, validator
/// exits, stake claims, key rotations and refunds run in the serial phase;
/// every other kind is partitioned.
pub proof fn law_serial_kinds(tx: TxAccess)
    ensures
        spec_runs_serially(tx) <==> (
            tx is DeployContract || tx is CallContract || tx is DeployScript || tx is CallScript
            || tx is Shield || tx is Unshield || tx is PrivateTransfer || tx is Deferred
            || tx is ValidatorExit || tx is ValidatorClaimStake || tx is RotateValidatorKey || tx is Refund),
{
}

/// The two lanes split the block: index `i` is in the serial lane exactly
/// when transaction `i` runs serially, in the parallel lane exactly when it
/// does not, and each lane lists its indices in block order.
pub proof fn law_lanes(txs: Seq<TxAccess>, serial: bool, k: int)
    requires
        0 <= k <= txs.len(),
        txs.len() <= usize::MAX,
    ensures
        forall|i: int| 0 <= i < k ==> (lane(txs, serial, k).contains(i as usize) <==> spec_runs_serially(#[trigger] txs[i]) == serial),
        forall|j: int| 0 <= j < lane(txs, serial, k).len() ==> #[trigger] lane(txs, serial, k)[j] < k,
        forall|a: int, b: int| 0 <= a < b < lane(txs, serial, k).len() ==> lane(txs, serial, k)[a] < lane(txs, serial, k)[b],
    decreases k,
{
    if k > 0 {
        law_lanes(txs, serial, k - 1);
        let prev = lane(txs, serial, k - 1);
        let cur = lane(txs, serial, k);
        assert forall|i: int| 0 <= i < k implies (cur.contains(i as usize) <==> spec_runs_serially(#[trigger] txs[i]) == serial) by {
            if spec_runs_serially(txs[k - 1]) == serial {
                assert(cur == prev.push((k - 1) as usize));
                if i < k - 1 {
                    if cur.contains(i as usize) {
                        let j = choose|j: int| 0 <= j < cur.len() && cur[j] == i as usize;
                        if j == prev.len() {
                        } else {
                            assert(prev[j] == cur[j]);
                        }
                    }
                    if prev.contains(i as usize) {
                        let j = choose|j: int| 0 <= j < prev.len() && prev[j] == i as usize;
                        assert(cur[j] == prev[j]);
                    }
                } else {
                    assert(cur[prev.len() as int] == (k - 1) as usize);
                }
            } else {
                assert(cur == prev);
                if i == k - 1 && cur.contains(i as usize) {
                    let j = choose|j: int| 0 <= j < cur.len() && cur[j] == i as usize;
                    assert(prev[j] < k - 1);
                }
            }
        }
        if spec_runs_serially(txs[k - 1]) == serial {
            assert forall|a: int, b: int| 0 <= a < b < cur.len() implies cur[a] < cur[b] by {
                if b < prev.len() {
                    assert(cur[a] == prev[a] && cur[b] == prev[b]);
                } else {
                    assert(cur[a] == prev[a]);
                }
            }
            assert forall|j: int| 0 <= j < cur.len() implies #[trigger] cur[j] < k by {
                if j < prev.len() { assert(cur[j] == prev[j]); }
            }
        }
    }
}

/// Each of `partitions` partitions gets the largest equal share of a
/// non-zero block limit (no partition count is taken as one), and a zero
/// limit means no limit.
pub proof fn law_partition_budget(block_gas_limit: u64, partitions: usize)
    ensures
        block_gas_limit == 0 ==> spec_partition_gas(block_gas_limit, partitions) == u64::MAX,
        block_gas_limit > 0 ==> ({
            let n: int = if partitions > 0 { partitions as int } else { 1 };
            let b = spec_partition_gas(block_gas_limit, partitions) as int;
            b * n <= block_gas_limit && block_gas_limit < (b + 1) * n
        }),
{
    if block_gas_limit > 0 {
        let n: int = if partitions > 0 { partitions as int } else { 1 };
        let l = block_gas_limit as int;
        let b = l / n;
        assert(b * n <= l && l < (b + 1) * n) by (nonlinear_arith)
            requires n > 0, l >= 0, b == l / n;
    }
}

} // verus!
