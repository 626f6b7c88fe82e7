//! Messages that arrive from other shards.
//!
//! Each inbound message yields a receipt: whether it took effect and a
//! digest of what it did. Shard addresses and object ids are 20 bytes; on
//! this shard they stand for the 32-byte id with twelve zero bytes after
//! them.

use vstd::prelude::*;
use crate::hashing::{blake3_digest, blake3_hash};
use crate::ledger::{Account, sat_add};
use crate::block::le_byte;
use crate::governance::string_bytes;
use crate::overlay::{StateOverlay, fresh_account};

verus! {

/// What a cross-shard message asks of this shard.
#[derive(Clone, Debug)]
pub enum ShardPayload {
    /// Move `amount` from `from` to the message's target address.
    Transfer { from: [u8; 20], amount: u64 },
    /// Ask whether `source_object` exists here.
    Reference { source_object: [u8; 20] },
    /// Look up `key`.
    Query { key: String },
    /// Remove the target object.
    Eviction { reason: String },
}

/// A message routed to this shard.
#[derive(Clone, Debug)]
pub struct CrossShardMessage {
    pub id: u64,
    pub from_shard: u32,
    pub to_shard: u32,
    pub target_object: [u8; 20],
    pub payload: ShardPayload,
    pub target_energy: u64,
    pub timestamp: u64,
}

/// The acknowledgement of one processed message.
#[derive(Clone, Copy, PartialEq, Eq, Debug)]
pub struct CrossShardReceipt {
    pub message_id: u64,
    pub from_shard: u32,
    pub to_shard: u32,
    pub success: bool,
    /// Digest of the effect, or all zeros when there is none to report.
    pub result_hash: [u8; 32],
    pub processed_at: u64,
}

/// The 32-byte id a 20-byte shard address stands for.
pub open spec fn widened(a: [u8; 20]) -> Seq<u8> {
    a@ + Seq::new(12, |i: int| 0u8)
}

/// The little-endian bytes of `v`.
pub open spec fn le_bytes(v: u64) -> Seq<u8> {
    Seq::new(8, |i: int| le_byte(v, i))
}

/// Thirty-two zero bytes.
pub open spec fn zero_digest() -> Seq<u8> {
    Seq::new(32, |i: int| 0u8)
}

/// Whether a message succeeds and the digest it reports, given the sender's
/// balance (for a transfer) and whether the named object exists (the source
/// object for a reference, the target object for an eviction). Each digest
/// is the BLAKE3 hash of its parts in turn: sender and receiver ids and the
/// amount for a transfer, the source id and a presence byte for a reference,
/// the key's bytes for a query.
pub open spec fn message_outcome(msg: CrossShardMessage, from_balance: u64, object_exists: bool) -> (bool, Seq<u8>) {
    match msg.payload {
        ShardPayload::Transfer { from, amount } => if from_balance >= amount {
            (true, blake3_digest(widened(from) + widened(msg.target_object) + le_bytes(amount)))
        } else {
            (false, zero_digest())
        },
        ShardPayload::Reference { source_object } =>
            (object_exists, blake3_digest(source_object@.push(if object_exists { 1u8 } else { 0u8 }))),
        ShardPayload::Query { key } => (true, blake3_digest(string_bytes(key))),
        ShardPayload::Eviction { .. } => (object_exists, zero_digest()),
    }
}

/// The 32-byte id of a 20-byte shard address.
pub fn widen_address(a: &[u8; 20]) -> (w: [u8; 32])
    ensures
        w@ == widened(*a),
{
    let mut w = [0u8; 32];
    let mut i: usize = 0;
    while i < 20
        invariant
            0 <= i <= 20,
            w@.len() == 32,
            forall|j: int| 0 <= j < i ==> w@[j] == a@[j],
            forall|j: int| i <= j < 32 ==> w@[j] == 0,
        decreases 20 - i,
    {
        w[i] = a[i];
        i = i + 1;
    }
    assert(w@ =~= widened(*a));
    w
}

fn append_bytes(out: &mut Vec<u8>, b: &[u8])
    ensures
        final(out)@ == old(out)@ + b@,
{
    let ghost start = out@;
    let mut i: usize = 0;
    while i < b.len()
        invariant
            0 <= i <= b@.len(),
            out@ == start + b@.take(i as int),
        decreases b@.len() - i,
    {
        out.push(b[i]);
        proof { assert(b@.take(i + 1) =~= b@.take(i as int).push(b@[i as int])); }
        i = i + 1;
    }
    assert(b@.take(b@.len() as int) =~= b@);
}

fn append_le_bytes(out: &mut Vec<u8>, v: u64)
    ensures
        final(out)@ == old(out)@ + le_bytes(v),
{
    let ghost start = out@;
    let mut i: usize = 0;
    while i < 8
        invariant
            0 <= i <= 8,
            out@ == start + le_bytes(v).take(i as int),
        decreases 8 - i,
    {
        out.push(((v >> (8 * i as u64)) & 0xff) as u8);
        proof { assert(le_bytes(v).take(i + 1) =~= le_bytes(v).take(i as int).push(le_byte(v, i as int))); }
        i = i + 1;
    }
    assert(le_bytes(v).take(8) =~= le_bytes(v));
}

fn zeros() -> (z: [u8; 32])
    ensures
        z@ == zero_digest(),
{
    let z = [0u8; 32];
    assert(z@ =~= zero_digest());
    z
}

/// Process one inbound message and acknowledge it at `epoch`.
///
/// `from_balance` is the sender's balance (a transfer only) and
/// `object_exists` whether the object the message names is present (the
/// source object of a reference, the target object of an eviction). The
/// caller applies a successful transfer with [`settle_cross_shard_transfer`]
/// and removes the target object of a successful eviction.
pub fn cross_shard_receipt(msg: &CrossShardMessage, from_balance: u64, object_exists: bool, epoch: u64)
    -> (r: CrossShardReceipt)
    ensures
        r.message_id == msg.id,
        r.from_shard == msg.from_shard,
        r.to_shard == msg.to_shard,
        r.processed_at == epoch,
        (r.success, r.result_hash@) == message_outcome(*msg, from_balance, object_exists),
{
    let (success, result_hash) = match &msg.payload {
        ShardPayload::Transfer { from, amount } => {
            if from_balance >= *amount {
                let mut data: Vec<u8> = Vec::new();
                append_bytes(&mut data, &widen_address(from));
                append_bytes(&mut data, &widen_address(&msg.target_object));
                append_le_bytes(&mut data, *amount);
                (true, blake3_hash(data.as_slice()))
            } else {
                (false, zeros())
            }
        },
        ShardPayload::Reference { source_object } => {
            let mut data: Vec<u8> = Vec::new();
            append_bytes(&mut data, source_object);
            data.push(if object_exists { 1u8 } else { 0u8 });
            (object_exists, blake3_hash(data.as_slice()))
        },
        ShardPayload::Query { key } => {
            (true, blake3_hash(key.as_str().as_bytes()))
        },
        ShardPayload::Eviction { .. } => (object_exists, zeros()),
    };
    CrossShardReceipt {
        message_id: msg.id,
        from_shard: msg.from_shard,
        to_shard: msg.to_shard,
        success,
        result_hash,
        processed_at: epoch,
    }
}

/// Apply a successful cross-shard transfer between two accounts: `amount`
/// leaves `from` and reaches `to`, and both demurrage anchors move to
/// `epoch`. Value is neither created nor destroyed.
pub fn settle_cross_shard_transfer(from: &mut Account, to: &mut Account, amount: u64, epoch: u64)
    requires
        old(from).address@ != old(to).address@,
        old(from).balance >= amount,
        old(to).balance + amount <= u64::MAX,
    ensures
        *final(from) == (Account { balance: (old(from).balance - amount) as u64, last_touched_epoch: epoch, ..*old(from) }),
        *final(to) == (Account { balance: sat_add(old(to).balance, amount), last_touched_epoch: epoch, ..*old(to) }),
        final(from).balance + final(to).balance == old(from).balance + old(to).balance,
{
    from.balance = from.balance - amount;
    from.last_touched_epoch = epoch;
    to.balance = to.balance + amount;
    to.last_touched_epoch = epoch;
}

/// Apply a successful cross-shard transfer whose sender and receiver are the
/// same account: the amount leaves and comes back, so only the demurrage
/// anchor moves to `epoch`.
pub fn settle_cross_shard_transfer_to_self(acct: &mut Account, amount: u64, epoch: u64)
    requires
        old(acct).balance >= amount,
    ensures
        *final(acct) == (Account { last_touched_epoch: epoch, ..*old(acct) }),
{
    acct.balance = acct.balance - amount;
    acct.balance = acct.balance + amount;
    acct.last_touched_epoch = epoch;
}

/// The 32-byte id a 20-byte shard address stands for, as an array.
pub open spec fn widened_id(a: [u8; 20]) -> [u8; 32] {
    choose|w: [u8; 32]| w@ == widened(a)
}

proof fn lemma_widened_id(a: [u8; 20], w: [u8; 32])
    requires
        w@ == widened(a),
    ensures
        widened_id(a) == w,
{
    let c = widened_id(a);
    assert(c@ == widened(a));
    assert forall|i: int| 0 <= i < 32 implies c[i] == w[i] by {
        assert(c@[i] == w@[i]);
    }
    assert(c =~= w);
}

/// The accounts, objects and deleted object ids of a store.
pub type ShardState<O> = (Map<Seq<u8>, Account>, Map<Seq<u8>, O>, Set<Seq<u8>>);

/// The accounts after reading `addr` with get-or-create: a fresh account is
/// held there if there was none.
pub open spec fn with_account(accts: Map<Seq<u8>, Account>, addr: [u8; 32]) -> Map<Seq<u8>, Account> {
    if accts.contains_key(addr@) { accts } else { accts.insert(addr@, fresh_account(addr)) }
}

/// The sender's balance a message sees (its account created if missing)
/// and whether the object it names exists.
pub open spec fn step_reads<O>(st: ShardState<O>, msg: CrossShardMessage) -> (u64, bool) {
    match msg.payload {
        ShardPayload::Transfer { from, .. } => (with_account(st.0, widened_id(from))[widened_id(from)@].balance, false),
        ShardPayload::Reference { source_object } => (0, st.1.contains_key(widened(source_object))),
        ShardPayload::Query { .. } => (0, false),
        ShardPayload::Eviction { .. } => (0, st.1.contains_key(widened(msg.target_object))),
    }
}

/// The store after one message: a covered transfer debits the sender and
/// credits the target account (each created if missing, both anchors moved
/// to `epoch`); an uncovered one only creates the sender's account; an
/// eviction removes a present target object; references and queries change
/// nothing.
pub open spec fn shard_step<O>(st: ShardState<O>, msg: CrossShardMessage, epoch: u64) -> ShardState<O> {
    match msg.payload {
        ShardPayload::Transfer { from, amount } => {
            let f = widened_id(from);
            let a1 = with_account(st.0, f);
            let sender = a1[f@];
            if sender.balance >= amount {
                let a2 = a1.insert(f@, Account { balance: (sender.balance - amount) as u64, last_touched_epoch: epoch, ..sender });
                let t = widened_id(msg.target_object);
                let a3 = with_account(a2, t);
                let recv = a3[t@];
                (a3.insert(t@, Account { balance: (recv.balance + amount) as u64, last_touched_epoch: epoch, ..recv }), st.1, st.2)
            } else {
                (a1, st.1, st.2)
            }
        },
        ShardPayload::Eviction { .. } => {
            let id = widened(msg.target_object);
            if st.1.contains_key(id) { (st.0, st.1.remove(id), st.2.insert(id)) } else { st }
        },
        _ => st,
    }
}

/// A covered transfer's credit fits the receiver's balance.
pub open spec fn step_fits<O>(st: ShardState<O>, msg: CrossShardMessage) -> bool {
    match msg.payload {
        ShardPayload::Transfer { from, amount } => {
            let f = widened_id(from);
            let a1 = with_account(st.0, f);
            let sender = a1[f@];
            sender.balance >= amount ==> {
                let a2 = a1.insert(f@, Account { balance: (sender.balance - amount) as u64, ..sender });
                let t = widened_id(msg.target_object);
                with_account(a2, t)[t@].balance + amount <= u64::MAX
            }
        },
        _ => true,
    }
}

/// The store after the messages of `msgs`, in order.
pub open spec fn shard_run<O>(st: ShardState<O>, msgs: Seq<CrossShardMessage>, epoch: u64) -> ShardState<O>
    decreases msgs.len(),
{
    if msgs.len() == 0 { st } else { shard_step(shard_run(st, msgs.drop_last(), epoch), msgs.last(), epoch) }
}

/// The store's accounts, objects and deleted ids.
pub open spec fn shard_state<O, G>(s: StateOverlay<O, G>) -> ShardState<O> {
    (s.accounts(), s.objects(), s.deleted_objects())
}

/// Process inbound messages in order against `state` and acknowledge each
/// at `epoch`, as [`cross_shard_receipt`] does for one message given what
/// the store holds when that message is reached (see [`shard_step`]).
pub fn execute_cross_shard_messages<O, G>(state: &mut StateOverlay<O, G>, messages: &Vec<CrossShardMessage>, epoch: u64)
    -> (receipts: Vec<CrossShardReceipt>)
    requires
        old(state).wf(),
        forall|i: int| 0 <= i < messages@.len() ==>
            step_fits(shard_run(shard_state(*old(state)), messages@.take(i), epoch), #[trigger] messages@[i]),
    ensures
        final(state).wf(),
        shard_state(*final(state)) == shard_run(shard_state(*old(state)), messages@, epoch),
        final(state).ghosts() == old(state).ghosts(),
        final(state).created_objects() == old(state).created_objects(),
        final(state).created_ghosts() == old(state).created_ghosts(),
        final(state).removed_ghosts() == old(state).removed_ghosts(),
        receipts@.len() == messages@.len(),
        forall|i: int| 0 <= i < receipts@.len() ==> {
            let st = shard_run(shard_state(*old(state)), messages@.take(i), epoch);
            let reads = step_reads(st, messages@[i]);
            &&& (#[trigger] receipts@[i]).message_id == messages@[i].id
            &&& receipts@[i].from_shard == messages@[i].from_shard
            &&& receipts@[i].to_shard == messages@[i].to_shard
            &&& receipts@[i].processed_at == epoch
            &&& (receipts@[i].success, receipts@[i].result_hash@) == message_outcome(messages@[i], reads.0, reads.1)
        },
{
    let ghost init = shard_state(*state);
    let ghost ghosts0 = state.ghosts();
    let ghost created0 = state.created_objects();
    let ghost cghosts0 = state.created_ghosts();
    let ghost removed0 = state.removed_ghosts();
    let mut receipts: Vec<CrossShardReceipt> = Vec::new();
    let mut i: usize = 0;
    while i < messages.len()
        invariant
            0 <= i <= messages@.len(),
            state.wf(),
            shard_state(*state) == shard_run(init, messages@.take(i as int), epoch),
            state.ghosts() == ghosts0,
            state.created_objects() == created0,
            state.created_ghosts() == cghosts0,
            state.removed_ghosts() == removed0,
            forall|k: int| 0 <= k < messages@.len() ==>
                step_fits(shard_run(init, messages@.take(k), epoch), #[trigger] messages@[k]),
            receipts@.len() == i,
            forall|k: int| 0 <= k < i ==> {
                let st = shard_run(init, messages@.take(k), epoch);
                let reads = step_reads(st, messages@[k]);
                &&& (#[trigger] receipts@[k]).message_id == messages@[k].id
                &&& receipts@[k].from_shard == messages@[k].from_shard
                &&& receipts@[k].to_shard == messages@[k].to_shard
                &&& receipts@[k].processed_at == epoch
                &&& (receipts@[k].success, receipts@[k].result_hash@) == message_outcome(messages@[k], reads.0, reads.1)
            },
        decreases messages@.len() - i,
    {
        let msg = &messages[i];
        let ghost st = shard_state(*state);
        proof {
            assert(messages@.take(i + 1).drop_last() =~= messages@.take(i as int));
            assert(messages@.take(i + 1).last() == messages@[i as int]);
        }
        let receipt = match &msg.payload {
            ShardPayload::Transfer { from, amount } => {
                let f = widen_address(from);
                proof { lemma_widened_id(*from, f); }
                let sender = state.get_or_create_account(&f);
                let r = cross_shard_receipt(msg, sender.balance, false, epoch);
                if sender.balance >= *amount {
                    let debited = Account { balance: sender.balance - *amount, last_touched_epoch: epoch, ..sender };
                    state.put_account_at(&f, debited);
                    let t = widen_address(&msg.target_object);
                    proof { lemma_widened_id(msg.target_object, t); }
                    let recv = state.get_or_create_account(&t);
                    let credited = Account { balance: recv.balance + *amount, last_touched_epoch: epoch, ..recv };
                    state.put_account_at(&t, credited);
                }
                r
            },
            ShardPayload::Reference { source_object } => {
                let id = widen_address(source_object);
                let exists = state.get_object(&id).is_some();
                cross_shard_receipt(msg, 0, exists, epoch)
            },
            ShardPayload::Query { .. } => cross_shard_receipt(msg, 0, false, epoch),
            ShardPayload::Eviction { .. } => {
                let id = widen_address(&msg.target_object);
                let exists = state.get_object(&id).is_some();
                let r = cross_shard_receipt(msg, 0, exists, epoch);
                if exists {
                    state.delete_object(&id);
                }
                r
            },
        };
        proof {
            assert(shard_state(*state) =~~= shard_step(st, messages@[i as int], epoch));
        }
        receipts.push(receipt);
        i = i + 1;
    }
    proof { assert(messages@.take(messages@.len() as int) =~= messages@); }
    receipts
}


/// The balance an account map shows for `k` (0 for an account not yet created).
pub open spec fn balance_in(m: Map<Seq<u8>, Account>, k: Seq<u8>) -> int {
    if m.contains_key(k) { m[k].balance as int } else { 0 }
}

/// One message's effect on the store, over balances and object sets: a
/// covered transfer between two accounts takes `amount` from the sender and
/// gives it to the target, leaving every other account and all objects as
/// they were, so the two balances' sum is kept; an uncovered transfer moves
/// nothing; an eviction deletes a present target object and records its id;
/// references and queries change nothing.
pub proof fn law_shard_step_effects<O>(st: ShardState<O>, msg: CrossShardMessage, epoch: u64, other: Seq<u8>)
    ensures
        ({
            let next = shard_step(st, msg, epoch);
            match msg.payload {
                ShardPayload::Transfer { from, amount } => {
                    let f = widened_id(from)@;
                    let t = widened_id(msg.target_object)@;
                    &&& next.1 == st.1 && next.2 == st.2
                    &&& (other != f && other != t) ==> (next.0.contains_key(other) == st.0.contains_key(other)
                        && (st.0.contains_key(other) ==> next.0[other] == st.0[other]))
                    &&& (f != t && balance_in(st.0, f) >= amount && balance_in(st.0, t) + amount <= u64::MAX) ==> {
                        &&& balance_in(next.0, f) == balance_in(st.0, f) - amount
                        &&& balance_in(next.0, t) == balance_in(st.0, t) + amount
                        &&& balance_in(next.0, f) + balance_in(next.0, t) == balance_in(st.0, f) + balance_in(st.0, t)
                    }
                    &&& balance_in(st.0, f) < amount ==> (forall|k: Seq<u8>| #[trigger] balance_in(next.0, k) == balance_in(st.0, k))
                },
                ShardPayload::Eviction { .. } => {
                    let id = widened(msg.target_object);
                    &&& next.0 == st.0
                    &&& st.1.contains_key(id) ==> (!next.1.contains_key(id) && next.2.contains(id)
                        && next.1 == st.1.remove(id))
                    &&& !st.1.contains_key(id) ==> next == st
                },
                _ => next == st,
            }
        }),
{
    match msg.payload {
        ShardPayload::Transfer { from, amount } => {
            let f = widened_id(from);
            let a1 = with_account(st.0, f);
            if balance_in(st.0, f@) < amount {
                assert forall|k: Seq<u8>| #[trigger] balance_in(shard_step(st, msg, epoch).0, k) == balance_in(st.0, k) by {
                    if k == f@ && !st.0.contains_key(k) {
                        assert(a1[k] == fresh_account(f));
                    }
                }
            }
        },
        _ => {},
    }
}

/// When a message is acknowledged as a success: a transfer exactly when
/// the sender's balance covers the amount (exactly equal included), a
/// reference or an eviction exactly when the named object exists, a query
/// always. A refused transfer and every eviction carry the zero digest.
pub proof fn law_receipt_success(msg: CrossShardMessage, from_balance: u64, object_exists: bool)
    ensures
        ({
            let (ok, digest) = message_outcome(msg, from_balance, object_exists);
            match msg.payload {
                ShardPayload::Transfer { amount, .. } => (ok <==> from_balance >= amount) && (!ok ==> digest == zero_digest()),
                ShardPayload::Reference { .. } => ok == object_exists,
                ShardPayload::Query { .. } => ok,
                ShardPayload::Eviction { .. } => ok == object_exists && digest == zero_digest(),
            }
        }),
{
}

} // verus!
