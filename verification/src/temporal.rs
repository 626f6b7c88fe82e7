//! Temporal execution: deferred (time-locked) transactions that mature when
//! their guards hold, and energy watchers that fire contract callbacks when
//! an object's energy crosses a threshold.
//!
//! What the guards read of the chain (an object's decayed energy and whether
//! it is a ghost, a contract's current phase) is handed in as a
//! [`GuardEnv`] gathered by the caller for the epoch being processed.

use vstd::prelude::*;
use crate::hashing::bytes32_eq;

verus! {

/// Minimum deposit for a deferred transaction.
pub const MIN_DEFERRED_DEPOSIT: u64 = 10_000;
/// Most deferred transactions the queue holds.
pub const MAX_QUEUE_SIZE: usize = 10_000;
/// Queue storage fee kept from each deposit.
pub const QUEUE_STORAGE_FEE: u64 = 1_000;
/// Most active watchers.
pub const MAX_WATCHERS: usize = 5_000;

/// Why a temporal request was refused.
#[derive(Clone, Copy, PartialEq, Eq, Structural, Debug)]
pub enum TemporalError {
    InsufficientDeposit { needed: u64, got: u64 },
    NoGuards,
    EmptyInnerTx,
    QueueFull { max: usize },
    TooManyWatchers { max: usize },
}

/// A condition on chain state that a deferred transaction waits for.
#[derive(Clone, Debug)]
pub enum TemporalGuard {
    /// The epoch is at least this.
    AfterEpoch(u64),
    /// The epoch is below this; from this epoch on the transaction expires.
    BeforeEpoch(u64),
    /// The object's energy is below the threshold (a missing object counts as 0).
    EnergyBelow([u8; 32], u64),
    /// The object exists and its energy is above the threshold.
    EnergyAbove([u8; 32], u64),
    /// The object is a ghost or no longer exists.
    ObjectEvaporated([u8; 32]),
    /// The contract's current phase has this name.
    ContractInPhase(u64, String),
}

/// A transaction submitted now to run once its guards hold.
#[derive(Debug)]
pub struct DeferredTx {
    pub submitter: [u8; 32],
    pub nonce: u64,
    pub deposit: u64,
    pub guards: Vec<TemporalGuard>,
    pub inner_tx_bytes: Vec<u8>,
    pub gas_limit: u64,
    pub signature: Option<Vec<u8>>,
    pub public_key: Option<Vec<u8>>,
}

/// An object as the guards and watchers see it at the processed epoch.
#[derive(Clone, Copy, Debug)]
pub struct ObjectFact {
    pub object_id: [u8; 32],
    /// Energy decayed to the processed epoch.
    pub energy: u64,
    /// Whether the object is in the ghost state.
    pub is_ghost: bool,
}

/// A contract whose current phase could be read, with the phase's name.
#[derive(Clone, Debug)]
pub struct PhaseFact {
    pub contract_id: u64,
    pub phase: String,
}

/// What guards and watchers read of the chain at one epoch. Objects not
/// listed do not exist; contracts not listed have no readable phase.
#[derive(Clone, Debug)]
pub struct GuardEnv {
    pub objects: Vec<ObjectFact>,
    pub phases: Vec<PhaseFact>,
}

/// The first fact about `id`, if any.
pub open spec fn find_object(objects: Seq<ObjectFact>, id: Seq<u8>) -> Option<ObjectFact>
    decreases objects.len(),
{
    if objects.len() == 0 {
        None
    } else if objects[0].object_id@ == id {
        Some(objects[0])
    } else {
        find_object(objects.drop_first(), id)
    }
}

/// The first phase fact about contract `id`, if any.
pub open spec fn find_phase(phases: Seq<PhaseFact>, id: u64) -> Option<PhaseFact>
    decreases phases.len(),
{
    if phases.len() == 0 {
        None
    } else if phases[0].contract_id == id {
        Some(phases[0])
    } else {
        find_phase(phases.drop_first(), id)
    }
}

/// Whether the facts list an object with id `id`.
pub open spec fn lists_object(objects: Seq<ObjectFact>, id: Seq<u8>) -> bool {
    exists|i: int| 0 <= i < objects.len() && (#[trigger] objects[i]).object_id@ == id
}

/// `i` is the first fact about `id`.
pub open spec fn first_fact(objects: Seq<ObjectFact>, id: Seq<u8>, i: int) -> bool {
    &&& 0 <= i < objects.len()
    &&& objects[i].object_id@ == id
    &&& forall|j: int| 0 <= j < i ==> (#[trigger] objects[j]).object_id@ != id
}

proof fn lemma_find_object(objects: Seq<ObjectFact>, id: Seq<u8>, i: int)
    ensures
        !lists_object(objects, id) ==> find_object(objects, id) is None,
        first_fact(objects, id, i) ==> find_object(objects, id) == Some(objects[i]),
    decreases objects.len(),
{
    if objects.len() > 0 {
        let rest = objects.drop_first();
        if !lists_object(objects, id) {
            assert(objects[0].object_id@ != id);
            if lists_object(rest, id) {
                let k = choose|k: int| 0 <= k < rest.len() && (#[trigger] rest[k]).object_id@ == id;
                assert(objects[k + 1] == rest[k]);
            }
            lemma_find_object(rest, id, i - 1);
        }
        if first_fact(objects, id, i) && i > 0 {
            assert(objects[0].object_id@ != id);
            assert forall|j: int| 0 <= j < i - 1 implies (#[trigger] rest[j]).object_id@ != id by {
                assert(rest[j] == objects[j + 1]);
            }
            assert(rest[i - 1] == objects[i]);
            lemma_find_object(rest, id, i - 1);
        }
    }
}

/// Whether one guard holds at `epoch`.
pub open spec fn guard_holds(g: TemporalGuard, epoch: u64, env: GuardEnv) -> bool {
    match g {
        TemporalGuard::AfterEpoch(e) => epoch >= e,
        TemporalGuard::BeforeEpoch(e) => epoch < e,
        TemporalGuard::EnergyBelow(id, threshold) => match find_object(env.objects@, id@) {
            Some(o) => o.energy < threshold,
            None => true,
        },
        TemporalGuard::EnergyAbove(id, threshold) => match find_object(env.objects@, id@) {
            Some(o) => o.energy > threshold,
            None => false,
        },
        TemporalGuard::ObjectEvaporated(id) => match find_object(env.objects@, id@) {
            Some(o) => o.is_ghost,
            None => true,
        },
        TemporalGuard::ContractInPhase(cid, expected) => match find_phase(env.phases@, cid) {
            Some(p) => p.phase@ == expected@,
            None => false,
        },
    }
}

/// Whether every guard holds at `epoch`.
pub open spec fn guards_hold(gs: Seq<TemporalGuard>, epoch: u64, env: GuardEnv) -> bool {
    forall|i: int| 0 <= i < gs.len() ==> guard_holds(#[trigger] gs[i], epoch, env)
}

fn lookup_object(env: &GuardEnv, id: &[u8; 32]) -> (r: Option<ObjectFact>)
    ensures
        r == find_object(env.objects@, id@),
{
    let mut i: usize = 0;
    assert(env.objects@.skip(0) =~= env.objects@);
    while i < env.objects.len()
        invariant
            0 <= i <= env.objects@.len(),
            find_object(env.objects@, id@) == find_object(env.objects@.skip(i as int), id@),
        decreases env.objects@.len() - i,
    {
        assert(env.objects@.skip(i as int).drop_first() =~= env.objects@.skip(i + 1));
        if bytes32_eq(&env.objects[i].object_id, id) {
            return Some(env.objects[i]);
        }
        i = i + 1;
    }
    None
}

fn lookup_phase(env: &GuardEnv, id: u64) -> (r: Option<&PhaseFact>)
    ensures
        match r {
            Some(p) => find_phase(env.phases@, id) == Some(*p),
            None => find_phase(env.phases@, id) is None,
        },
{
    let mut i: usize = 0;
    assert(env.phases@.skip(0) =~= env.phases@);
    while i < env.phases.len()
        invariant
            0 <= i <= env.phases@.len(),
            find_phase(env.phases@, id) == find_phase(env.phases@.skip(i as int), id),
        decreases env.phases@.len() - i,
    {
        assert(env.phases@.skip(i as int).drop_first() =~= env.phases@.skip(i + 1));
        if env.phases[i].contract_id == id {
            return Some(&env.phases[i]);
        }
        i = i + 1;
    }
    None
}

/// Whether all `guards` hold at `epoch` (checked in order; the first failing
/// guard decides).
pub fn evaluate_guards(guards: &Vec<TemporalGuard>, epoch: u64, env: &GuardEnv) -> (r: bool)
    ensures
        r == guards_hold(guards@, epoch, *env),
{
    let mut i: usize = 0;
    while i < guards.len()
        invariant
            0 <= i <= guards@.len(),
            forall|j: int| 0 <= j < i ==> guard_holds(#[trigger] guards@[j], epoch, *env),
        decreases guards@.len() - i,
    {
        let ok = match &guards[i] {
            TemporalGuard::AfterEpoch(e) => epoch >= *e,
            TemporalGuard::BeforeEpoch(e) => epoch < *e,
            TemporalGuard::EnergyBelow(id, threshold) => match lookup_object(env, id) {
                Some(o) => o.energy < *threshold,
                None => true,
            },
            TemporalGuard::EnergyAbove(id, threshold) => match lookup_object(env, id) {
                Some(o) => o.energy > *threshold,
                None => false,
            },
            TemporalGuard::ObjectEvaporated(id) => match lookup_object(env, id) {
                Some(o) => o.is_ghost,
                None => true,
            },
            TemporalGuard::ContractInPhase(cid, expected) => match lookup_phase(env, *cid) {
                Some(p) => p.phase == *expected,
                None => false,
            },
        };
        if !ok {
            return false;
        }
        i = i + 1;
    }
    true
}

/// A queued deferred transaction with its scheduling hints.
#[derive(Debug)]
pub struct DeferredEntry {
    pub tx: DeferredTx,
    /// Earliest epoch it could fire (largest `AfterEpoch`, else 0).
    pub earliest_epoch: u64,
    /// Epoch from which it has expired (smallest `BeforeEpoch`, else `u64::MAX`).
    pub expiry_epoch: u64,
    /// Deposit left after the queue storage fee; refunded on expiry.
    pub remaining_deposit: u64,
    /// Submission sequence number.
    pub seq: u64,
}

/// A deferred transaction that matured: its inner transaction is to run now.
#[derive(Debug)]
pub struct MaturedTx {
    pub submitter: [u8; 32],
    pub inner_tx_bytes: Vec<u8>,
    pub gas_limit: u64,
}

/// A deposit refund owed for an expired deferred transaction.
#[derive(Clone, Copy, Debug)]
pub struct DepositRefund {
    pub address: [u8; 32],
    pub amount: u64,
}

/// Outcome of processing the queue at one epoch.
#[derive(Debug)]
pub struct DeferredQueueResult {
    pub matured: usize,
    pub expired: usize,
    pub pending: usize,
    pub matured_txs: Vec<MaturedTx>,
    pub refunds: Vec<DepositRefund>,
}

/// Deferred transactions in firing order: by earliest epoch, then by submission.
pub struct DeferredQueue {
    queue: Vec<DeferredEntry>,
    next_seq: u64,
}

/// `a` fires before `b`: earlier `earliest_epoch`, or same and submitted first.
pub open spec fn fires_before(a: DeferredEntry, b: DeferredEntry) -> bool {
    a.earliest_epoch < b.earliest_epoch || (a.earliest_epoch == b.earliest_epoch && a.seq < b.seq)
}

/// Strictly ordered by `fires_before`.
pub open spec fn in_firing_order(s: Seq<DeferredEntry>) -> bool {
    forall|i: int, j: int| 0 <= i < j < s.len() ==> fires_before(#[trigger] s[i], #[trigger] s[j])
}

/// What happens to a queued entry at `epoch`.
#[derive(Clone, Copy, PartialEq, Eq, Structural, Debug)]
pub enum Disposition {
    Expired,
    Matured,
    Kept,
}

pub open spec fn disposition(e: DeferredEntry, epoch: u64, env: GuardEnv) -> Disposition {
    if epoch >= e.expiry_epoch {
        Disposition::Expired
    } else if epoch < e.earliest_epoch {
        Disposition::Kept
    } else if guards_hold(e.tx.guards@, epoch, env) {
        Disposition::Matured
    } else {
        Disposition::Kept
    }
}

/// The entries of `s` with disposition `d` at `epoch`, in order.
pub open spec fn with_disposition(s: Seq<DeferredEntry>, d: Disposition, epoch: u64, env: GuardEnv) -> Seq<DeferredEntry>
    decreases s.len(),
{
    if s.len() == 0 {
        Seq::empty()
    } else {
        let rest = with_disposition(s.drop_last(), d, epoch, env);
        if disposition(s.last(), epoch, env) == d { rest.push(s.last()) } else { rest }
    }
}

/// Every entry has exactly one disposition: the matured, expired and kept
/// entries together are as many as the entries.
pub proof fn lemma_dispositions_partition(s: Seq<DeferredEntry>, epoch: u64, env: GuardEnv)
    ensures
        with_disposition(s, Disposition::Matured, epoch, env).len()
            + with_disposition(s, Disposition::Expired, epoch, env).len()
            + with_disposition(s, Disposition::Kept, epoch, env).len() == s.len(),
    decreases s.len(),
{
    if s.len() > 0 {
        lemma_dispositions_partition(s.drop_last(), epoch, env);
    }
}

/// Largest `AfterEpoch` bound (0 if none).
pub open spec fn earliest_of(gs: Seq<TemporalGuard>) -> u64
    decreases gs.len(),
{
    if gs.len() == 0 {
        0
    } else {
        let rest = earliest_of(gs.drop_last());
        match gs.last() {
            TemporalGuard::AfterEpoch(e) => if e > rest { e } else { rest },
            _ => rest,
        }
    }
}

/// Smallest `BeforeEpoch` bound (`u64::MAX` if none).
pub open spec fn expiry_of(gs: Seq<TemporalGuard>) -> u64
    decreases gs.len(),
{
    if gs.len() == 0 {
        u64::MAX
    } else {
        let rest = expiry_of(gs.drop_last());
        match gs.last() {
            TemporalGuard::BeforeEpoch(e) => if e < rest { e } else { rest },
            _ => rest,
        }
    }
}

/// Why `submit` refuses a transaction, in the order the checks run.
pub open spec fn submit_error(guards: nat, inner_len: nat, deposit: u64, queued: nat) -> Option<TemporalError> {
    if guards == 0 {
        Some(TemporalError::NoGuards)
    } else if inner_len == 0 {
        Some(TemporalError::EmptyInnerTx)
    } else if deposit < MIN_DEFERRED_DEPOSIT {
        Some(TemporalError::InsufficientDeposit { needed: MIN_DEFERRED_DEPOSIT, got: deposit })
    } else if queued >= MAX_QUEUE_SIZE {
        Some(TemporalError::QueueFull { max: MAX_QUEUE_SIZE })
    } else {
        None
    }
}

pub(crate) fn copy_bytes(v: &Vec<u8>) -> (r: Vec<u8>)
    ensures
        r@ == v@,
{
    let mut r: Vec<u8> = Vec::new();
    let mut i: usize = 0;
    while i < v.len()
        invariant
            0 <= i <= v@.len(),
            r@ == v@.take(i as int),
        decreases v@.len() - i,
    {
        r.push(v[i]);
        proof { assert(v@.take(i + 1) =~= v@.take(i as int).push(v@[i as int])); }
        i = i + 1;
    }
    assert(v@.take(v@.len() as int) =~= v@);
    r
}

impl DeferredQueue {
    /// Queued entries, in firing order.
    pub closed spec fn entries(&self) -> Seq<DeferredEntry> {
        self.queue@
    }

    /// Sequence number the next submission receives.
    pub closed spec fn spec_next_seq(&self) -> u64 {
        self.next_seq
    }

    /// A well-formed queue holds its entries in firing order, each with a
    /// sequence number below the next one handed out.
    pub proof fn lemma_entries_ordered(&self)
        requires
            self.wf(),
        ensures
            in_firing_order(self.entries()),
            forall|i: int| 0 <= i < self.entries().len() ==> (#[trigger] self.entries()[i]).seq < self.spec_next_seq(),
    {
    }

    /// Entries are in firing order and every sequence number is below `next_seq`.
    pub closed spec fn wf(&self) -> bool {
        &&& in_firing_order(self.queue@)
        &&& forall|i: int| 0 <= i < self.queue@.len() ==> (#[trigger] self.queue@[i]).seq < self.next_seq
    }

    pub fn new() -> (q: Self)
        ensures
            q.wf(),
            q.entries().len() == 0,
            q.spec_next_seq() == 0,
    {
        DeferredQueue { queue: Vec::new(), next_seq: 0 }
    }

    /// Queue a deferred transaction. Refused without guards, without an inner
    /// transaction, with a deposit below `MIN_DEFERRED_DEPOSIT`, or when the
    /// queue is full. Otherwise the entry is scheduled by its largest
    /// `AfterEpoch` and smallest `BeforeEpoch` guards, keeps its deposit less
    /// the storage fee, and receives the next sequence number, which is returned.
    pub fn submit(&mut self, tx: DeferredTx) -> (r: Result<u64, TemporalError>)
        requires
            old(self).wf(),
            old(self).spec_next_seq() < u64::MAX,
        ensures
            final(self).wf(),
            ({
                let err = submit_error(tx.guards@.len(), tx.inner_tx_bytes@.len(), tx.deposit, old(self).entries().len());
                match err {
                    Some(e) => r == Err::<u64, TemporalError>(e) && final(self).entries() == old(self).entries()
                        && final(self).spec_next_seq() == old(self).spec_next_seq(),
                    None => {
                        &&& r == Ok::<u64, TemporalError>(old(self).spec_next_seq())
                        &&& final(self).spec_next_seq() == old(self).spec_next_seq() + 1
                        &&& exists|pos: int| 0 <= pos <= old(self).entries().len()
                            && final(self).entries() == #[trigger] old(self).entries().insert(pos, DeferredEntry {
                                tx,
                                earliest_epoch: earliest_of(tx.guards@),
                                expiry_epoch: expiry_of(tx.guards@),
                                remaining_deposit: (tx.deposit - QUEUE_STORAGE_FEE) as u64,
                                seq: old(self).spec_next_seq(),
                            })
                    },
                }
            }),
    {
        if tx.guards.len() == 0 {
            return Err(TemporalError::NoGuards);
        }
        if tx.inner_tx_bytes.len() == 0 {
            return Err(TemporalError::EmptyInnerTx);
        }
        if tx.deposit < MIN_DEFERRED_DEPOSIT {
            return Err(TemporalError::InsufficientDeposit { needed: MIN_DEFERRED_DEPOSIT, got: tx.deposit });
        }
        if self.queue.len() >= MAX_QUEUE_SIZE {
            return Err(TemporalError::QueueFull { max: MAX_QUEUE_SIZE });
        }
        let mut earliest: u64 = 0;
        let mut expiry: u64 = u64::MAX;
        let mut i: usize = 0;
        while i < tx.guards.len()
            invariant
                0 <= i <= tx.guards@.len(),
                earliest == earliest_of(tx.guards@.take(i as int)),
                expiry == expiry_of(tx.guards@.take(i as int)),
            decreases tx.guards@.len() - i,
        {
            proof { assert(tx.guards@.take(i + 1).drop_last() =~= tx.guards@.take(i as int)); }
            match &tx.guards[i] {
                TemporalGuard::AfterEpoch(e) => {
                    if *e > earliest {
                        earliest = *e;
                    }
                },
                TemporalGuard::BeforeEpoch(e) => {
                    if *e < expiry {
                        expiry = *e;
                    }
                },
                _ => {},
            }
            i = i + 1;
        }
        proof { assert(tx.guards@.take(tx.guards@.len() as int) =~= tx.guards@); }
        let remaining = tx.deposit - QUEUE_STORAGE_FEE;
        let seq = self.next_seq;
        self.next_seq = self.next_seq + 1;
        let mut pos: usize = 0;
        while pos < self.queue.len() && self.queue[pos].earliest_epoch <= earliest
            invariant
                0 <= pos <= self.queue@.len(),
                forall|j: int| 0 <= j < pos ==> (#[trigger] self.queue@[j]).earliest_epoch <= earliest,
            decreases self.queue@.len() - pos,
        {
            pos = pos + 1;
        }
        let ghost before = self.queue@;
        let entry = DeferredEntry { tx, earliest_epoch: earliest, expiry_epoch: expiry, remaining_deposit: remaining, seq };
        let ghost e = entry;
        self.queue.insert(pos, entry);
        proof {
            assert(self.queue@ == before.insert(pos as int, e));
            assert forall|a: int, b: int| 0 <= a < b < self.queue@.len() implies fires_before(#[trigger] self.queue@[a], #[trigger] self.queue@[b]) by {
                if a < pos && b < pos {
                    assert(self.queue@[a] == before[a] && self.queue@[b] == before[b]);
                } else if a < pos && b == pos {
                    assert(self.queue@[a] == before[a]);
                } else if a < pos {
                    assert(self.queue@[a] == before[a] && self.queue@[b] == before[b - 1]);
                } else if a == pos {
                    assert(self.queue@[b] == before[b - 1]);
                    assert(before[b - 1].earliest_epoch > earliest || b - 1 < pos) by {
                        if b - 1 >= pos && before[b - 1].earliest_epoch <= earliest {
                            assert(fires_before(before[pos as int], before[b - 1]) || pos == b - 1);
                        }
                    }
                } else {
                    assert(self.queue@[a] == before[a - 1] && self.queue@[b] == before[b - 1]);
                }
            }
            assert forall|j: int| 0 <= j < self.queue@.len() implies (#[trigger] self.queue@[j]).seq < self.next_seq by {
                if j < pos {
                    assert(self.queue@[j] == before[j]);
                } else if j > pos {
                    assert(self.queue@[j] == before[j - 1]);
                }
            }
        }
        Ok(seq)
    }

    /// Process the queue at `epoch`, front to back in firing order. An entry
    /// whose expiry has come is dropped and its remaining deposit refunded;
    /// an entry not yet eligible, or whose guards do not all hold, stays; an
    /// entry whose guards all hold matures and is handed back for execution.
    pub fn process_epoch(&mut self, epoch: u64, env: &GuardEnv) -> (result: DeferredQueueResult)
        requires
            old(self).wf(),
        ensures
            final(self).wf(),
            final(self).spec_next_seq() == old(self).spec_next_seq(),
            final(self).entries() == with_disposition(old(self).entries(), Disposition::Kept, epoch, *env),
            result.pending == final(self).entries().len(),
            result.matured + result.expired + result.pending == old(self).entries().len(),
            ({
                let matured = with_disposition(old(self).entries(), Disposition::Matured, epoch, *env);
                let expired = with_disposition(old(self).entries(), Disposition::Expired, epoch, *env);
                &&& result.matured == matured.len()
                &&& result.matured_txs@.len() == matured.len()
                &&& forall|i: int| 0 <= i < matured.len() ==> {
                    &&& (#[trigger] result.matured_txs@[i]).submitter == matured[i].tx.submitter
                    &&& result.matured_txs@[i].inner_tx_bytes@ == matured[i].tx.inner_tx_bytes@
                    &&& result.matured_txs@[i].gas_limit == matured[i].tx.gas_limit
                }
                &&& result.expired == expired.len()
                &&& result.refunds@.len() == expired.len()
                &&& forall|i: int| 0 <= i < expired.len() ==> {
                    &&& (#[trigger] result.refunds@[i]).address == expired[i].tx.submitter
                    &&& result.refunds@[i].amount == expired[i].remaining_deposit
                }
            }),
    {
        let ghost orig = self.queue@;
        let orig_len = self.queue.len();
        let mut matured_txs: Vec<MaturedTx> = Vec::new();
        let mut refunds: Vec<DepositRefund> = Vec::new();
        let mut i: usize = 0;
        let mut done: usize = 0;
        while i < self.queue.len()
            invariant
                0 <= i <= self.queue@.len(),
                0 <= done <= orig.len(),
                self.queue@ == with_disposition(orig.take(done as int), Disposition::Kept, epoch, *env) + orig.skip(done as int),
                self.queue@.len() == i + orig.len() - done,
                orig.len() == orig_len,
                self.next_seq == old(self).next_seq,
                i == with_disposition(orig.take(done as int), Disposition::Kept, epoch, *env).len(),
                in_firing_order(orig),
                forall|j: int| 0 <= j < orig.len() ==> (#[trigger] orig[j]).seq < self.next_seq,
                matured_txs@.len() == with_disposition(orig.take(done as int), Disposition::Matured, epoch, *env).len(),
                forall|j: int| 0 <= j < matured_txs@.len() ==> {
                    let m = with_disposition(orig.take(done as int), Disposition::Matured, epoch, *env);
                    &&& (#[trigger] matured_txs@[j]).submitter == m[j].tx.submitter
                    &&& matured_txs@[j].inner_tx_bytes@ == m[j].tx.inner_tx_bytes@
                    &&& matured_txs@[j].gas_limit == m[j].tx.gas_limit
                },
                refunds@.len() == with_disposition(orig.take(done as int), Disposition::Expired, epoch, *env).len(),
                forall|j: int| 0 <= j < refunds@.len() ==> {
                    let x = with_disposition(orig.take(done as int), Disposition::Expired, epoch, *env);
                    &&& (#[trigger] refunds@[j]).address == x[j].tx.submitter
                    &&& refunds@[j].amount == x[j].remaining_deposit
                },
            decreases self.queue@.len() - i,
        {
            let ghost kept_before = with_disposition(orig.take(done as int), Disposition::Kept, epoch, *env);
            proof {
                assert(orig.take(done + 1).drop_last() =~= orig.take(done as int));
                assert(self.queue@[i as int] == orig[done as int]);
                assert(orig.take(done + 1).last() == orig[done as int]);
                assert(orig.skip(done as int).drop_first() =~= orig.skip(done + 1));
            }
            let expired = epoch >= self.queue[i].expiry_epoch;
            let eligible = epoch >= self.queue[i].earliest_epoch;
            if expired {
                refunds.push(DepositRefund {
                    address: self.queue[i].tx.submitter,
                    amount: self.queue[i].remaining_deposit,
                });
                self.queue.remove(i);
                proof {
                    assert(self.queue@ =~= kept_before + orig.skip(done + 1));
                }
            } else if eligible && evaluate_guards(&self.queue[i].tx.guards, epoch, env) {
                let bytes = copy_bytes(&self.queue[i].tx.inner_tx_bytes);
                matured_txs.push(MaturedTx {
                    submitter: self.queue[i].tx.submitter,
                    inner_tx_bytes: bytes,
                    gas_limit: self.queue[i].tx.gas_limit,
                });
                self.queue.remove(i);
                proof {
                    assert(self.queue@ =~= kept_before + orig.skip(done + 1));
                }
            } else {
                proof {
                    assert(self.queue@ =~= kept_before.push(orig[done as int]) + orig.skip(done + 1));
                }
                i = i + 1;
            }
            done = done + 1;
        }
        proof {
            assert(orig.skip(done as int).len() == 0);
            assert(orig.take(done as int) =~= orig);
            assert(self.queue@ =~= with_disposition(orig, Disposition::Kept, epoch, *env));
            lemma_kept_subsequence(orig, epoch, *env);
            lemma_dispositions_partition(orig, epoch, *env);
        }
        let pending = self.queue.len();
        let matured = matured_txs.len();
        let expired = refunds.len();
        DeferredQueueResult { matured, expired, pending, matured_txs, refunds }
    }

    /// Number of queued deferred transactions.
    pub fn len(&self) -> (n: usize)
        ensures
            n == self.entries().len(),
    {
        self.queue.len()
    }

    /// Whether nothing is queued.
    pub fn is_empty(&self) -> (b: bool)
        ensures
            b == (self.entries().len() == 0),
    {
        self.queue.len() == 0
    }
}

/// Keeping some entries of a sequence in firing order keeps them in firing
/// order, with every sequence number still one of the full sequence's.
proof fn lemma_kept_subsequence(s: Seq<DeferredEntry>, epoch: u64, env: GuardEnv)
    requires
        in_firing_order(s),
    ensures
        in_firing_order(with_disposition(s, Disposition::Kept, epoch, env)),
        forall|i: int| 0 <= i < with_disposition(s, Disposition::Kept, epoch, env).len() ==>
            exists|j: int| 0 <= j < s.len() && s[j] == #[trigger] with_disposition(s, Disposition::Kept, epoch, env)[i],
    decreases s.len(),
{
    if s.len() > 0 {
        let init = s.drop_last();
        assert(in_firing_order(init)) by {
            assert forall|i: int, j: int| 0 <= i < j < init.len() implies fires_before(#[trigger] init[i], #[trigger] init[j]) by {
                assert(init[i] == s[i] && init[j] == s[j]);
            }
        }
        lemma_kept_subsequence(init, epoch, env);
        let k = with_disposition(init, Disposition::Kept, epoch, env);
        let full = with_disposition(s, Disposition::Kept, epoch, env);
        assert forall|i: int| 0 <= i < k.len() implies fires_before(#[trigger] k[i], s.last()) by {
            let j = choose|j: int| 0 <= j < init.len() && init[j] == k[i];
            assert(s[j] == init[j]);
        }
        assert forall|i: int| 0 <= i < full.len() implies
            exists|j: int| 0 <= j < s.len() && s[j] == #[trigger] full[i] by {
            if i < k.len() {
                assert(full[i] == k[i]);
                let j = choose|j: int| 0 <= j < init.len() && init[j] == k[i];
                assert(s[j] == init[j]);
            } else {
                assert(full[i] == s[s.len() - 1]);
            }
        }
    }
}

// ═══════════════════════════════════════════════════════════════════════
// Decay watchers
// ═══════════════════════════════════════════════════════════════════════

/// A registered energy threshold monitor.
#[derive(Clone, Debug)]
pub struct EnergyWatcher {
    pub id: u64,
    pub object_id: [u8; 32],
    pub threshold: u64,
    /// Fire when energy drops below the threshold (else when it rises above).
    pub fire_below: bool,
    pub callback_contract_id: u64,
    pub callback_method: String,
    pub callback_args: String,
    pub fired: bool,
    pub registered_epoch: u64,
}

/// A contract callback owed by a fired watcher.
#[derive(Clone, Debug)]
pub struct WatcherCallback {
    pub contract_id: u64,
    pub method: String,
    pub args: String,
}

/// Outcome of processing the watchers at one epoch.
#[derive(Clone, Debug)]
pub struct WatcherResult {
    pub fired: usize,
    pub callbacks: Vec<WatcherCallback>,
}

/// Watches object energy and fires callbacks when thresholds are crossed.
pub struct DecayWatcherEngine {
    watchers: Vec<EnergyWatcher>,
    next_id: u64,
}

/// The object's energy at the processed epoch (0 when it no longer exists).
pub open spec fn watched_energy(env: GuardEnv, id: Seq<u8>) -> u64 {
    match find_object(env.objects@, id) {
        Some(o) => o.energy,
        None => 0,
    }
}

/// Whether a watcher fires at the processed epoch.
pub open spec fn should_fire(w: EnergyWatcher, env: GuardEnv) -> bool {
    if w.fire_below {
        watched_energy(env, w.object_id@) < w.threshold
    } else {
        watched_energy(env, w.object_id@) > w.threshold
    }
}

/// The watchers of `s` that `fire` says fire (`true`) or stay (`false`), in order.
pub open spec fn watchers_where(s: Seq<EnergyWatcher>, fire: bool, env: GuardEnv) -> Seq<EnergyWatcher>
    decreases s.len(),
{
    if s.len() == 0 {
        Seq::empty()
    } else {
        let rest = watchers_where(s.drop_last(), fire, env);
        if should_fire(s.last(), env) == fire { rest.push(s.last()) } else { rest }
    }
}

/// The watchers of `s` on object `id`, in order.
pub open spec fn watchers_on(s: Seq<EnergyWatcher>, id: Seq<u8>) -> Seq<EnergyWatcher>
    decreases s.len(),
{
    if s.len() == 0 {
        Seq::empty()
    } else {
        let rest = watchers_on(s.drop_last(), id);
        if s.last().object_id@ == id { rest.push(s.last()) } else { rest }
    }
}

/// The watchers of `s` other than those with `id`, in order.
pub open spec fn watchers_without(s: Seq<EnergyWatcher>, id: u64) -> Seq<EnergyWatcher>
    decreases s.len(),
{
    if s.len() == 0 {
        Seq::empty()
    } else {
        let rest = watchers_without(s.drop_last(), id);
        if s.last().id != id { rest.push(s.last()) } else { rest }
    }
}

impl DecayWatcherEngine {
    /// The active watchers, in registration order.
    pub closed spec fn active(&self) -> Seq<EnergyWatcher> {
        self.watchers@
    }

    /// Identifier the next registration receives.
    pub closed spec fn spec_next_id(&self) -> u64 {
        self.next_id
    }

    /// Every active watcher's identifier is below the next one handed out.
    pub proof fn lemma_ids_below_next(&self)
        requires
            self.wf(),
        ensures
            forall|i: int| 0 <= i < self.active().len() ==> (#[trigger] self.active()[i]).id < self.spec_next_id(),
    {
    }

    /// No stored watcher has fired; identifiers are below `next_id`.
    pub closed spec fn wf(&self) -> bool {
        &&& forall|i: int| 0 <= i < self.watchers@.len() ==> !(#[trigger] self.watchers@[i]).fired
        &&& forall|i: int| 0 <= i < self.watchers@.len() ==> (#[trigger] self.watchers@[i]).id < self.next_id
    }

    pub fn new() -> (e: Self)
        ensures
            e.wf(),
            e.active().len() == 0,
            e.spec_next_id() == 1,
    {
        DecayWatcherEngine { watchers: Vec::new(), next_id: 1 }
    }

    /// Register a watcher and return its identifier; refused once
    /// `MAX_WATCHERS` are active.
    pub fn register(
        &mut self,
        object_id: [u8; 32],
        threshold: u64,
        fire_below: bool,
        callback_contract_id: u64,
        callback_method: String,
        callback_args: String,
        current_epoch: u64,
    ) -> (r: Result<u64, TemporalError>)
        requires
            old(self).wf(),
            old(self).spec_next_id() < u64::MAX,
        ensures
            final(self).wf(),
            old(self).active().len() >= MAX_WATCHERS ==> r == Err::<u64, TemporalError>(TemporalError::TooManyWatchers { max: MAX_WATCHERS })
                && final(self).active() == old(self).active() && final(self).spec_next_id() == old(self).spec_next_id(),
            old(self).active().len() < MAX_WATCHERS ==> {
                &&& r == Ok::<u64, TemporalError>(old(self).spec_next_id())
                &&& final(self).spec_next_id() == old(self).spec_next_id() + 1
                &&& final(self).active() == old(self).active().push(EnergyWatcher {
                    id: old(self).spec_next_id(),
                    object_id,
                    threshold,
                    fire_below,
                    callback_contract_id,
                    callback_method,
                    callback_args,
                    fired: false,
                    registered_epoch: current_epoch,
                })
            },
    {
        if self.watchers.len() >= MAX_WATCHERS {
            return Err(TemporalError::TooManyWatchers { max: MAX_WATCHERS });
        }
        let id = self.next_id;
        self.next_id = self.next_id + 1;
        self.watchers.push(EnergyWatcher {
            id,
            object_id,
            threshold,
            fire_below,
            callback_contract_id,
            callback_method,
            callback_args,
            fired: false,
            registered_epoch: current_epoch,
        });
        Ok(id)
    }

    /// Remove every watcher with `watcher_id`; whether one was removed.
    pub fn unregister(&mut self, watcher_id: u64) -> (removed: bool)
        requires
            old(self).wf(),
        ensures
            final(self).wf(),
            final(self).spec_next_id() == old(self).spec_next_id(),
            final(self).active() == watchers_without(old(self).active(), watcher_id),
            removed == (final(self).active().len() < old(self).active().len()),
    {
        let ghost orig = self.watchers@;
        let before = self.watchers.len();
        let mut i: usize = 0;
        let mut done: usize = 0;
        while i < self.watchers.len()
            invariant
                0 <= i <= self.watchers@.len(),
                0 <= done <= orig.len(),
                self.watchers@ == watchers_without(orig.take(done as int), watcher_id) + orig.skip(done as int),
                self.watchers@.len() == i + orig.len() - done,
                orig.len() == before,
                self.next_id == old(self).next_id,
                i == watchers_without(orig.take(done as int), watcher_id).len(),
                before == orig.len(),
                forall|j: int| 0 <= j < orig.len() ==> !(#[trigger] orig[j]).fired,
                forall|j: int| 0 <= j < orig.len() ==> (#[trigger] orig[j]).id < self.next_id,
            decreases self.watchers@.len() - i,
        {
            let ghost kept_before = watchers_without(orig.take(done as int), watcher_id);
            proof {
                assert(orig.take(done + 1).drop_last() =~= orig.take(done as int));
                assert(self.watchers@[i as int] == orig[done as int]);
                assert(orig.skip(done as int).drop_first() =~= orig.skip(done + 1));
            }
            if self.watchers[i].id == watcher_id {
                self.watchers.remove(i);
                proof { assert(self.watchers@ =~= kept_before + orig.skip(done + 1)); }
            } else {
                proof { assert(self.watchers@ =~= kept_before.push(orig[done as int]) + orig.skip(done + 1)); }
                i = i + 1;
            }
            done = done + 1;
        }
        proof {
            assert(orig.take(done as int) =~= orig);
            assert(self.watchers@ =~= watchers_without(orig, watcher_id));
            lemma_watchers_without_sub(orig, watcher_id);
        }
        self.watchers.len() < before
    }

    /// Fire every watcher whose condition holds at the processed epoch (energy
    /// below the threshold for `fire_below` watchers, above it for the others;
    /// a missing object has energy 0), in registration order; fired watchers
    /// are dropped, the others stay.
    pub fn process(&mut self, env: &GuardEnv) -> (result: WatcherResult)
        requires
            old(self).wf(),
        ensures
            final(self).wf(),
            final(self).spec_next_id() == old(self).spec_next_id(),
            final(self).active() == watchers_where(old(self).active(), false, *env),
            ({
                let fired = watchers_where(old(self).active(), true, *env);
                &&& result.fired == fired.len()
                &&& result.callbacks@.len() == fired.len()
                &&& forall|i: int| 0 <= i < fired.len() ==> {
                    &&& (#[trigger] result.callbacks@[i]).contract_id == fired[i].callback_contract_id
                    &&& result.callbacks@[i].method == fired[i].callback_method
                    &&& result.callbacks@[i].args == fired[i].callback_args
                }
            }),
    {
        let ghost orig = self.watchers@;
        let orig_len = self.watchers.len();
        let mut callbacks: Vec<WatcherCallback> = Vec::new();
        let mut i: usize = 0;
        let mut done: usize = 0;
        while i < self.watchers.len()
            invariant
                0 <= i <= self.watchers@.len(),
                0 <= done <= orig.len(),
                self.watchers@ == watchers_where(orig.take(done as int), false, *env) + orig.skip(done as int),
                self.watchers@.len() == i + orig.len() - done,
                orig.len() == orig_len,
                self.next_id == old(self).next_id,
                i == watchers_where(orig.take(done as int), false, *env).len(),
                forall|j: int| 0 <= j < orig.len() ==> !(#[trigger] orig[j]).fired,
                forall|j: int| 0 <= j < orig.len() ==> (#[trigger] orig[j]).id < self.next_id,
                callbacks@.len() == watchers_where(orig.take(done as int), true, *env).len(),
                forall|j: int| 0 <= j < callbacks@.len() ==> {
                    let f = watchers_where(orig.take(done as int), true, *env);
                    &&& (#[trigger] callbacks@[j]).contract_id == f[j].callback_contract_id
                    &&& callbacks@[j].method == f[j].callback_method
                    &&& callbacks@[j].args == f[j].callback_args
                },
            decreases self.watchers@.len() - i,
        {
            let ghost kept_before = watchers_where(orig.take(done as int), false, *env);
            proof {
                assert(orig.take(done + 1).drop_last() =~= orig.take(done as int));
                assert(self.watchers@[i as int] == orig[done as int]);
                assert(orig.skip(done as int).drop_first() =~= orig.skip(done + 1));
            }
            let energy = match lookup_object(env, &self.watchers[i].object_id) {
                Some(o) => o.energy,
                None => 0,
            };
            let fire = if self.watchers[i].fire_below {
                energy < self.watchers[i].threshold
            } else {
                energy > self.watchers[i].threshold
            };
            if fire {
                let method = self.watchers[i].callback_method.clone();
                let args = self.watchers[i].callback_args.clone();
                callbacks.push(WatcherCallback {
                    contract_id: self.watchers[i].callback_contract_id,
                    method,
                    args,
                });
                self.watchers.remove(i);
                proof { assert(self.watchers@ =~= kept_before + orig.skip(done + 1)); }
            } else {
                proof { assert(self.watchers@ =~= kept_before.push(orig[done as int]) + orig.skip(done + 1)); }
                i = i + 1;
            }
            done = done + 1;
        }
        proof {
            assert(orig.take(done as int) =~= orig);
            assert(self.watchers@ =~= watchers_where(orig, false, *env));
            lemma_watchers_where_sub(orig, *env);
        }
        let fired = callbacks.len();
        WatcherResult { fired, callbacks }
    }

    /// Number of active watchers.
    pub fn active_count(&self) -> (n: usize)
        ensures
            n == self.active().len(),
    {
        self.watchers.len()
    }

    /// The active watchers on `object_id`, in registration order.
    pub fn watchers_for_object(&self, object_id: &[u8; 32]) -> (r: Vec<&EnergyWatcher>)
        ensures
            r@.len() == watchers_on(self.active(), object_id@).len(),
            forall|i: int| 0 <= i < r@.len() ==> *(#[trigger] r@[i]) == watchers_on(self.active(), object_id@)[i],
    {
        let mut r: Vec<&EnergyWatcher> = Vec::new();
        let mut i: usize = 0;
        while i < self.watchers.len()
            invariant
                0 <= i <= self.watchers@.len(),
                r@.len() == watchers_on(self.watchers@.take(i as int), object_id@).len(),
                forall|j: int| 0 <= j < r@.len() ==> *(#[trigger] r@[j]) == watchers_on(self.watchers@.take(i as int), object_id@)[j],
            decreases self.watchers@.len() - i,
        {
            proof { assert(self.watchers@.take(i + 1).drop_last() =~= self.watchers@.take(i as int)); }
            if bytes32_eq(&self.watchers[i].object_id, object_id) {
                r.push(&self.watchers[i]);
            }
            i = i + 1;
        }
        proof { assert(self.watchers@.take(self.watchers@.len() as int) =~= self.watchers@); }
        r
    }
}

/// Every watcher that stays after removing an identifier was there before.
proof fn lemma_watchers_without_sub(s: Seq<EnergyWatcher>, id: u64)
    ensures
        watchers_without(s, id).len() <= s.len(),
        forall|i: int| 0 <= i < watchers_without(s, id).len() ==>
            exists|j: int| 0 <= j < s.len() && s[j] == #[trigger] watchers_without(s, id)[i],
    decreases s.len(),
{
    if s.len() > 0 {
        let init = s.drop_last();
        lemma_watchers_without_sub(init, id);
        let w = watchers_without(s, id);
        let k = watchers_without(init, id);
        assert forall|i: int| 0 <= i < w.len() implies exists|j: int| 0 <= j < s.len() && s[j] == #[trigger] w[i] by {
            if i < k.len() {
                assert(w[i] == k[i]);
                let j = choose|j: int| 0 <= j < init.len() && init[j] == k[i];
                assert(s[j] == init[j]);
            } else {
                assert(w[i] == s[s.len() - 1]);
            }
        }
    }
}

/// Every watcher that stays unfired was there before.
proof fn lemma_watchers_where_sub(s: Seq<EnergyWatcher>, env: GuardEnv)
    ensures
        forall|i: int| 0 <= i < watchers_where(s, false, env).len() ==>
            exists|j: int| 0 <= j < s.len() && s[j] == #[trigger] watchers_where(s, false, env)[i],
    decreases s.len(),
{
    if s.len() > 0 {
        let init = s.drop_last();
        lemma_watchers_where_sub(init, env);
        let w = watchers_where(s, false, env);
        let k = watchers_where(init, false, env);
        assert forall|i: int| 0 <= i < w.len() implies exists|j: int| 0 <= j < s.len() && s[j] == #[trigger] w[i] by {
            if i < k.len() {
                assert(w[i] == k[i]);
                let j = choose|j: int| 0 <= j < init.len() && init[j] == k[i];
                assert(s[j] == init[j]);
            } else {
                assert(w[i] == s[s.len() - 1]);
            }
        }
    }
}

/// What each guard means, over the facts themselves: epoch bounds compare
/// with the epoch; an object that the facts do not list has evaporated, has
/// energy below any threshold and none above; a listed object (its first
/// fact) has evaporated exactly when it is a ghost, and its energy decides
/// the energy guards; a guard list holds when each of its guards does.
pub proof fn law_guard_meanings(id: [u8; 32], threshold: u64, e: u64, epoch: u64, env: GuardEnv, i: int, gs: Seq<TemporalGuard>)
    ensures
        guard_holds(TemporalGuard::AfterEpoch(e), epoch, env) <==> epoch >= e,
        guard_holds(TemporalGuard::BeforeEpoch(e), epoch, env) <==> epoch < e,
        !lists_object(env.objects@, id@) ==> {
            &&& guard_holds(TemporalGuard::ObjectEvaporated(id), epoch, env)
            &&& guard_holds(TemporalGuard::EnergyBelow(id, threshold), epoch, env)
            &&& !guard_holds(TemporalGuard::EnergyAbove(id, threshold), epoch, env)
        },
        first_fact(env.objects@, id@, i) ==> {
            &&& guard_holds(TemporalGuard::ObjectEvaporated(id), epoch, env) == env.objects@[i].is_ghost
            &&& guard_holds(TemporalGuard::EnergyBelow(id, threshold), epoch, env) == (env.objects@[i].energy < threshold)
            &&& guard_holds(TemporalGuard::EnergyAbove(id, threshold), epoch, env) == (env.objects@[i].energy > threshold)
        },
        guards_hold(gs, epoch, env) <==> forall|k: int| 0 <= k < gs.len() ==> guard_holds(#[trigger] gs[k], epoch, env),
        guards_hold(Seq::<TemporalGuard>::empty(), epoch, env),
{
    lemma_find_object(env.objects@, id@, i);
}

/// The schedule read off a guard list: the earliest epoch is the largest
/// `AfterEpoch` bound (0 without one), the expiry the smallest `BeforeEpoch`
/// bound (`u64::MAX` without one).
pub proof fn law_schedule_bounds(gs: Seq<TemporalGuard>)
    ensures
        forall|i: int| 0 <= i < gs.len() ==> (#[trigger] gs[i] matches TemporalGuard::AfterEpoch(e) ==> earliest_of(gs) >= e),
        forall|i: int| 0 <= i < gs.len() ==> (#[trigger] gs[i] matches TemporalGuard::BeforeEpoch(e) ==> expiry_of(gs) <= e),
        earliest_of(gs) == 0 || exists|i: int| 0 <= i < gs.len() && #[trigger] gs[i] == TemporalGuard::AfterEpoch(earliest_of(gs)),
        expiry_of(gs) == u64::MAX || exists|i: int| 0 <= i < gs.len() && #[trigger] gs[i] == TemporalGuard::BeforeEpoch(expiry_of(gs)),
    decreases gs.len(),
{
    if gs.len() > 0 {
        let init = gs.drop_last();
        law_schedule_bounds(init);
        assert forall|i: int| 0 <= i < init.len() implies init[i] == gs[i] by {}
        if earliest_of(gs) != 0 && earliest_of(gs) == earliest_of(init) {
            let i = choose|i: int| 0 <= i < init.len() && #[trigger] init[i] == TemporalGuard::AfterEpoch(earliest_of(init));
            assert(gs[i] == init[i]);
        }
        if expiry_of(gs) != u64::MAX && expiry_of(gs) == expiry_of(init) {
            let i = choose|i: int| 0 <= i < init.len() && #[trigger] init[i] == TemporalGuard::BeforeEpoch(expiry_of(init));
            assert(gs[i] == init[i]);
        }
        assert(gs[gs.len() - 1] == gs.last());
    }
}

/// A queued transaction scheduled from its own guards matures exactly when
/// all its guards hold (and the epoch is not the last one), and expires
/// exactly when a `BeforeEpoch` bound has been reached (or at the last
/// epoch); expiry wins over maturity.
pub proof fn law_matures_when_guards_hold(e: DeferredEntry, epoch: u64, env: GuardEnv)
    requires
        e.earliest_epoch == earliest_of(e.tx.guards@),
        e.expiry_epoch == expiry_of(e.tx.guards@),
    ensures
        disposition(e, epoch, env) == Disposition::Expired <==> (epoch == u64::MAX
            || exists|i: int| 0 <= i < e.tx.guards@.len()
                && (#[trigger] e.tx.guards@[i] matches TemporalGuard::BeforeEpoch(b) && epoch >= b)),
        disposition(e, epoch, env) == Disposition::Matured <==>
            (epoch < u64::MAX && guards_hold(e.tx.guards@, epoch, env)),
{
    let gs = e.tx.guards@;
    law_schedule_bounds(gs);
    if epoch >= e.expiry_epoch && epoch != u64::MAX {
        let i = choose|i: int| 0 <= i < gs.len() && #[trigger] gs[i] == TemporalGuard::BeforeEpoch(expiry_of(gs));
        assert(gs[i] matches TemporalGuard::BeforeEpoch(b) && epoch >= b);
    }
    if guards_hold(gs, epoch, env) {
        if earliest_of(gs) != 0 {
            let i = choose|i: int| 0 <= i < gs.len() && #[trigger] gs[i] == TemporalGuard::AfterEpoch(earliest_of(gs));
            assert(guard_holds(gs[i], epoch, env));
        }
        if expiry_of(gs) != u64::MAX {
            let i = choose|i: int| 0 <= i < gs.len() && #[trigger] gs[i] == TemporalGuard::BeforeEpoch(expiry_of(gs));
            assert(guard_holds(gs[i], epoch, env));
        }
        assert forall|i: int| 0 <= i < gs.len() implies !(#[trigger] gs[i] matches TemporalGuard::BeforeEpoch(b) && epoch >= b) by {
            assert(guard_holds(gs[i], epoch, env));
        }
    }
}

/// Submission, on the transaction itself: refused without guards, without
/// an inner transaction, with a deposit below 10 000, or with 10 000
/// transactions already queued; otherwise accepted, keeping the deposit less
/// a 1 000 storage fee.
pub proof fn law_submit_rules(guards: nat, inner_len: nat, deposit: u64, queued: nat)
    ensures
        submit_error(guards, inner_len, deposit, queued) is None <==>
            (guards > 0 && inner_len > 0 && deposit >= 10_000 && queued < 10_000),
        submit_error(guards, inner_len, deposit, queued) is None ==> deposit - QUEUE_STORAGE_FEE == deposit - 1_000,
{
}


proof fn lemma_find_phase(phases: Seq<PhaseFact>, id: u64, i: int)
    ensures
        (forall|j: int| 0 <= j < phases.len() ==> (#[trigger] phases[j]).contract_id != id) ==> find_phase(phases, id) is None,
        (0 <= i < phases.len() && phases[i].contract_id == id
            && forall|j: int| 0 <= j < i ==> (#[trigger] phases[j]).contract_id != id) ==> find_phase(phases, id) == Some(phases[i]),
    decreases phases.len(),
{
    if phases.len() > 0 {
        let rest = phases.drop_first();
        assert forall|j: int| 0 <= j < rest.len() implies rest[j] == phases[j + 1] by {}
        if forall|j: int| 0 <= j < phases.len() ==> (#[trigger] phases[j]).contract_id != id {
            assert(phases[0].contract_id != id);
            assert forall|j: int| 0 <= j < rest.len() implies (#[trigger] rest[j]).contract_id != id by {
                assert(phases[j + 1].contract_id != id);
            }
            lemma_find_phase(rest, id, i - 1);
        }
        if 0 < i < phases.len() && phases[i].contract_id == id
            && forall|j: int| 0 <= j < i ==> (#[trigger] phases[j]).contract_id != id {
            assert(phases[0].contract_id != id);
            assert forall|j: int| 0 <= j < i - 1 implies (#[trigger] rest[j]).contract_id != id by {
                assert(phases[j + 1].contract_id != id);
            }
            lemma_find_phase(rest, id, i - 1);
        }
    }
}

/// A phase guard reads the first phase fact about its contract: it holds
/// exactly when that fact names the expected phase, and never when the
/// contract has no readable phase.
pub proof fn law_phase_guard(cid: u64, expected: String, epoch: u64, env: GuardEnv, i: int)
    ensures
        (forall|j: int| 0 <= j < env.phases@.len() ==> (#[trigger] env.phases@[j]).contract_id != cid)
            ==> !guard_holds(TemporalGuard::ContractInPhase(cid, expected), epoch, env),
        (0 <= i < env.phases@.len() && env.phases@[i].contract_id == cid
            && forall|j: int| 0 <= j < i ==> (#[trigger] env.phases@[j]).contract_id != cid)
            ==> (guard_holds(TemporalGuard::ContractInPhase(cid, expected), epoch, env) <==> env.phases@[i].phase@ == expected@),
{
    lemma_find_phase(env.phases@, cid, i);
}

/// When a watcher fires, over the facts themselves: a below-watcher fires
/// when the object's energy is under its threshold, an above-watcher when
/// it is over; an object the facts do not list has energy 0, so it fires
/// every below-watcher with a positive threshold and no above-watcher.
/// Processing splits the watchers exactly: every one either fires or stays.
pub proof fn law_watcher_firing(w: EnergyWatcher, env: GuardEnv, i: int, ws: Seq<EnergyWatcher>)
    ensures
        !lists_object(env.objects@, w.object_id@) ==> (should_fire(w, env) <==> (w.fire_below && w.threshold > 0)),
        first_fact(env.objects@, w.object_id@, i) ==> (should_fire(w, env) <==> (if w.fire_below {
            env.objects@[i].energy < w.threshold
        } else {
            env.objects@[i].energy > w.threshold
        })),
        watchers_where(ws, true, env).len() + watchers_where(ws, false, env).len() == ws.len(),
    decreases ws.len(),
{
    lemma_find_object(env.objects@, w.object_id@, i);
    if ws.len() > 0 {
        law_watcher_firing(w, env, i, ws.drop_last());
    }
}

/// Unregistering removes every watcher with the identifier and keeps the
/// others in order; so unregistering the identifier a registration just
/// handed out (one no active watcher has) restores the watchers as they
/// were before it.
pub proof fn law_unregister_undoes_register(s: Seq<EnergyWatcher>, w: EnergyWatcher, id: u64)
    requires
        forall|i: int| 0 <= i < s.len() ==> (#[trigger] s[i]).id != w.id,
    ensures
        forall|i: int| 0 <= i < watchers_without(s, id).len() ==> (#[trigger] watchers_without(s, id)[i]).id != id,
        (forall|i: int| 0 <= i < s.len() ==> (#[trigger] s[i]).id != id) ==> watchers_without(s, id) == s,
        watchers_without(s.push(w), w.id) == s,
    decreases s.len(),
{
    if s.len() > 0 {
        let init = s.drop_last();
        assert forall|i: int| 0 <= i < init.len() implies (#[trigger] init[i]).id != w.id by {
            assert(init[i] == s[i]);
        }
        law_unregister_undoes_register(init, w, id);
        let r = watchers_without(init, id);
        let cur = watchers_without(s, id);
        assert forall|i: int| 0 <= i < cur.len() implies (#[trigger] cur[i]).id != id by {
            if s.last().id != id {
                if i < r.len() { assert(cur[i] == r[i]); }
            }
        }
        if forall|i: int| 0 <= i < s.len() ==> (#[trigger] s[i]).id != id {
            assert forall|i: int| 0 <= i < init.len() implies (#[trigger] init[i]).id != id by {
                assert(init[i] == s[i]);
            }
            assert(s.last().id != id) by { assert(s[s.len() - 1].id != id); }
            assert(cur =~= s);
        }
    }
    assert(s.push(w).drop_last() =~= s);
    assert forall|i: int| 0 <= i < s.len() implies (#[trigger] s[i]).id != w.id by {}
    lemma_without_absent(s, w.id);
}

proof fn lemma_without_absent(s: Seq<EnergyWatcher>, id: u64)
    requires
        forall|i: int| 0 <= i < s.len() ==> (#[trigger] s[i]).id != id,
    ensures
        watchers_without(s, id) == s,
    decreases s.len(),
{
    if s.len() > 0 {
        let init = s.drop_last();
        assert forall|i: int| 0 <= i < init.len() implies (#[trigger] init[i]).id != id by {
            assert(init[i] == s[i]);
        }
        lemma_without_absent(init, id);
        assert(s.last().id != id) by { assert(s[s.len() - 1].id != id); }
        assert(watchers_without(s, id) =~= s);
    }
}

/// What processing hands back keeps the queue's firing order: matured
/// transactions, refunds and the entries that stay each come out ordered by
/// earliest epoch, then by submission order.
pub proof fn law_dispositions_in_firing_order(s: Seq<DeferredEntry>, d: Disposition, epoch: u64, env: GuardEnv)
    requires
        in_firing_order(s),
    ensures
        in_firing_order(with_disposition(s, d, epoch, env)),
        forall|i: int| 0 <= i < with_disposition(s, d, epoch, env).len() ==>
            exists|k: int| 0 <= k < s.len() && s[k] == #[trigger] with_disposition(s, d, epoch, env)[i],
    decreases s.len(),
{
    if s.len() > 0 {
        let init = s.drop_last();
        assert(in_firing_order(init)) by {
            assert forall|i: int, j: int| 0 <= i < j < init.len() implies fires_before(#[trigger] init[i], #[trigger] init[j]) by {
                assert(init[i] == s[i] && init[j] == s[j]);
            }
        }
        law_dispositions_in_firing_order(init, d, epoch, env);
        let rest = with_disposition(init, d, epoch, env);
        let cur = with_disposition(s, d, epoch, env);
        if disposition(s.last(), epoch, env) == d {
            assert(cur == rest.push(s.last()));
            assert forall|i: int| 0 <= i < cur.len() implies
                exists|k: int| 0 <= k < s.len() && s[k] == #[trigger] cur[i] by {
                if i < rest.len() {
                    assert(cur[i] == rest[i]);
                    let k = choose|k: int| 0 <= k < init.len() && init[k] == #[trigger] rest[i];
                    assert(s[k] == init[k]);
                } else {
                    assert(s[s.len() - 1] == cur[i]);
                }
            }
            assert forall|i: int, j: int| 0 <= i < j < cur.len() implies fires_before(#[trigger] cur[i], #[trigger] cur[j]) by {
                if j < rest.len() {
                    assert(cur[i] == rest[i] && cur[j] == rest[j]);
                } else {
                    assert(cur[i] == rest[i]);
                    let k = choose|k: int| 0 <= k < init.len() && init[k] == #[trigger] rest[i];
                    assert(s[k] == init[k]);
                    assert(fires_before(s[k], s[s.len() - 1]));
                }
            }
        } else {
            assert(cur == rest);
            assert forall|i: int| 0 <= i < cur.len() implies
                exists|k: int| 0 <= k < s.len() && s[k] == #[trigger] cur[i] by {
                let k = choose|k: int| 0 <= k < init.len() && init[k] == #[trigger] rest[i];
                assert(s[k] == init[k]);
            }
        }
    }
}

} // verus!
