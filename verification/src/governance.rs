//! On-chain governance: which parameters may be governed, what values they
//! accept, proposal admission, voting, and the quorum / super-majority /
//! timelock rules that decide and activate proposals.

use vstd::prelude::*;
use vstd::string::StringSliceAdditionalSpecFns;
use crate::text::{ascii, text, bytes_eq, starts_with, parse_u64, u64_text, all_hex_digits, is_hex_digit};
use crate::decimal::{unit_interval_text, check_unit_interval, UnitIntervalText};
use crate::hashing::bytes32_eq;
use crate::ledger::Account;
use crate::errors::{ExecutionError, ContractFault};

verus! {

/// Per-voter vote-weight cap: no single voter contributes more than this.
pub const MAX_VOTE_WEIGHT: u64 = 10_000_000;
/// Least total weighted votes (for + against) for a proposal to be eligible to pass.
pub const QUORUM_MIN_TOTAL_WEIGHT: u64 = 30_000_000;
/// Least number of distinct voters for a proposal to be eligible to pass.
pub const QUORUM_MIN_VOTERS: usize = 3;
/// `votes_for` must exceed this multiple of `votes_against`.
pub const PASS_THRESHOLD_MULTIPLIER: u64 = 2;
/// Shortest voting window, in epochs.
pub const MIN_VOTING_EPOCHS: u64 = 10;
/// Longest voting window, in epochs.
pub const MAX_VOTING_EPOCHS: u64 = 100_000;
/// Longest proposal title, in bytes.
pub const MAX_PROPOSAL_TITLE_BYTES: usize = 200;
/// Longest parameter key, in bytes.
pub const MAX_PARAM_KEY_BYTES: usize = 64;
/// Longest parameter value, in bytes.
pub const MAX_PARAM_VALUE_BYTES: usize = 256;
/// Epochs between a proposal passing and its parameter taking effect.
pub const GOVERNANCE_TIMELOCK_EPOCHS: u64 = 5;

pub open spec fn key_block_gas_limit() -> Seq<u8> { ascii("block_gas_limit"@) }
pub open spec fn key_base_fee_floor() -> Seq<u8> { ascii("base_fee_floor"@) }
pub open spec fn key_base_fee_ceiling() -> Seq<u8> { ascii("base_fee_ceiling"@) }
pub open spec fn key_target_gas_utilization() -> Seq<u8> { ascii("target_gas_utilization"@) }
pub open spec fn upgrade_contract_prefix() -> Seq<u8> { ascii("upgrade_contract:"@) }

fn lit_block_gas_limit() -> (b: &'static [u8])
    ensures b@ == key_block_gas_limit(),
{
    let s = "block_gas_limit";
    proof { reveal_strlit("block_gas_limit"); }
    assert(vstd::string::is_ascii(s));
    let b = s.as_bytes();
    assert(b@ =~= key_block_gas_limit());
    b
}

fn lit_base_fee_floor() -> (b: &'static [u8])
    ensures b@ == key_base_fee_floor(),
{
    let s = "base_fee_floor";
    proof { reveal_strlit("base_fee_floor"); }
    assert(vstd::string::is_ascii(s));
    let b = s.as_bytes();
    assert(b@ =~= key_base_fee_floor());
    b
}

fn lit_base_fee_ceiling() -> (b: &'static [u8])
    ensures b@ == key_base_fee_ceiling(),
{
    let s = "base_fee_ceiling";
    proof { reveal_strlit("base_fee_ceiling"); }
    assert(vstd::string::is_ascii(s));
    let b = s.as_bytes();
    assert(b@ =~= key_base_fee_ceiling());
    b
}

fn lit_target_gas_utilization() -> (b: &'static [u8])
    ensures b@ == key_target_gas_utilization(),
{
    let s = "target_gas_utilization";
    proof { reveal_strlit("target_gas_utilization"); }
    assert(vstd::string::is_ascii(s));
    let b = s.as_bytes();
    assert(b@ =~= key_target_gas_utilization());
    b
}

fn lit_upgrade_contract_prefix() -> (b: &'static [u8])
    ensures b@ == upgrade_contract_prefix(),
{
    let s = "upgrade_contract:";
    proof { reveal_strlit("upgrade_contract:"); }
    assert(vstd::string::is_ascii(s));
    let b = s.as_bytes();
    assert(b@ =~= upgrade_contract_prefix());
    b
}

/// The allowlist: the four named parameters, or `upgrade_contract:` followed by anything.
pub open spec fn governable_key(key: Seq<u8>) -> bool {
    ||| key == key_block_gas_limit()
    ||| key == key_base_fee_floor()
    ||| key == key_base_fee_ceiling()
    ||| key == key_target_gas_utilization()
    ||| upgrade_contract_prefix().is_prefix_of(key)
}

/// Whether `key` may be the subject of a governance proposal.
pub fn is_governable_param_key(key: &str) -> (r: bool)
    ensures
        r == governable_key(text(key)),
{
    let k = key.as_bytes();
    bytes_eq(k, lit_block_gas_limit())
        || bytes_eq(k, lit_base_fee_floor())
        || bytes_eq(k, lit_base_fee_ceiling())
        || bytes_eq(k, lit_target_gas_utilization())
        || starts_with(k, lit_upgrade_contract_prefix())
}

/// Why a proposed parameter value was refused.
#[derive(Clone, Copy, PartialEq, Eq, Debug)]
pub enum ParamValueError {
    /// `block_gas_limit` is not a non-negative integer.
    GasLimitNotInteger,
    /// `block_gas_limit` is outside `[1_000, 10_000_000_000]`.
    GasLimitOutOfRange { value: u64 },
    /// `base_fee_floor` is not a non-negative integer.
    FeeFloorNotInteger,
    /// `base_fee_ceiling` is not a non-negative integer.
    FeeCeilingNotInteger,
    /// `target_gas_utilization` is not a decimal number.
    UtilizationNotNumber,
    /// `target_gas_utilization` is a number outside `[0.0, 1.0]`.
    UtilizationOutOfRange,
    /// An `upgrade_contract:` value is not 64 hexadecimal digits.
    UpgradeHashMalformed,
    /// The key is not on the governable allowlist.
    KeyNotGovernable,
}

pub const MIN_BLOCK_GAS_LIMIT: u64 = 1_000;
pub const MAX_BLOCK_GAS_LIMIT: u64 = 10_000_000_000;

/// What `validate_param_value` answers for a key and a value (both as bytes).
pub open spec fn param_value_verdict(key: Seq<u8>, value: Seq<u8>) -> Result<(), ParamValueError> {
    if key == key_block_gas_limit() {
        match u64_text(value) {
            None => Err(ParamValueError::GasLimitNotInteger),
            Some(v) => if MIN_BLOCK_GAS_LIMIT <= v <= MAX_BLOCK_GAS_LIMIT {
                Ok(())
            } else {
                Err(ParamValueError::GasLimitOutOfRange { value: v })
            },
        }
    } else if key == key_base_fee_floor() {
        if u64_text(value) is Some { Ok(()) } else { Err(ParamValueError::FeeFloorNotInteger) }
    } else if key == key_base_fee_ceiling() {
        if u64_text(value) is Some { Ok(()) } else { Err(ParamValueError::FeeCeilingNotInteger) }
    } else if key == key_target_gas_utilization() {
        match unit_interval_text(value) {
            UnitIntervalText::NotANumber => Err(ParamValueError::UtilizationNotNumber),
            UnitIntervalText::Outside => Err(ParamValueError::UtilizationOutOfRange),
            UnitIntervalText::Inside => Ok(()),
        }
    } else if upgrade_contract_prefix().is_prefix_of(key) {
        if value.len() == 64 && (forall|i: int| 0 <= i < value.len() ==> is_hex_digit(#[trigger] value[i])) {
            Ok(())
        } else {
            Err(ParamValueError::UpgradeHashMalformed)
        }
    } else {
        Err(ParamValueError::KeyNotGovernable)
    }
}

/// Whether `value` is parseable and in range for the parameter `key`.
///
/// `block_gas_limit`: an integer in `[1_000, 10_000_000_000]`;
/// `base_fee_floor` / `base_fee_ceiling`: any `u64`;
/// `target_gas_utilization`: a decimal number whose nearest `f64` lies in `[0.0, 1.0]`;
/// `upgrade_contract:<id>`: 64 hexadecimal digits (the BLAKE3 of the new bytecode).
pub fn validate_param_value(key: &str, value: &str) -> (r: Result<(), ParamValueError>)
    ensures
        r == param_value_verdict(text(key), text(value)),
{
    let k = key.as_bytes();
    let v = value.as_bytes();
    if bytes_eq(k, lit_block_gas_limit()) {
        match parse_u64(v) {
            None => Err(ParamValueError::GasLimitNotInteger),
            Some(n) => if MIN_BLOCK_GAS_LIMIT <= n && n <= MAX_BLOCK_GAS_LIMIT {
                Ok(())
            } else {
                Err(ParamValueError::GasLimitOutOfRange { value: n })
            },
        }
    } else if bytes_eq(k, lit_base_fee_floor()) {
        if parse_u64(v).is_some() { Ok(()) } else { Err(ParamValueError::FeeFloorNotInteger) }
    } else if bytes_eq(k, lit_base_fee_ceiling()) {
        if parse_u64(v).is_some() { Ok(()) } else { Err(ParamValueError::FeeCeilingNotInteger) }
    } else if bytes_eq(k, lit_target_gas_utilization()) {
        match check_unit_interval(v) {
            UnitIntervalText::NotANumber => Err(ParamValueError::UtilizationNotNumber),
            UnitIntervalText::Outside => Err(ParamValueError::UtilizationOutOfRange),
            UnitIntervalText::Inside => Ok(()),
        }
    } else if starts_with(k, lit_upgrade_contract_prefix()) {
        if v.len() == 64 && all_hex_digits(v) {
            Ok(())
        } else {
            Err(ParamValueError::UpgradeHashMalformed)
        }
    } else {
        Err(ParamValueError::KeyNotGovernable)
    }
}

/// Lifecycle of a governance proposal.
#[derive(Clone, Copy, PartialEq, Eq, Structural, Debug)]
pub enum ProposalStatus {
    Active,
    Passed,
    Rejected,
    Executed,
}

/// A governance proposal and its tally.
#[derive(Clone, Debug)]
pub struct Proposal {
    pub proposal_id: u64,
    pub proposer: [u8; 32],
    pub title: String,
    pub param_key: String,
    pub param_value: String,
    pub start_epoch: u64,
    pub end_epoch: u64,
    pub votes_for: u64,
    pub votes_against: u64,
    pub status: ProposalStatus,
    pub created_at: u64,
    /// Accounts that have voted, each at most once.
    pub voters: Vec<[u8; 32]>,
}

/// The voters of a proposal, as byte strings.
pub open spec fn voter_keys(p: Proposal) -> Seq<Seq<u8>> {
    p.voters@.map_values(|a: [u8; 32]| a@)
}

/// No account appears twice among the voters.
pub open spec fn voters_distinct(p: Proposal) -> bool {
    voter_keys(p).no_duplicates()
}

/// Saturating `u64` addition, as a mathematical value.
pub open spec fn sat_add(a: u64, b: u64) -> u64 {
    if a + b > u64::MAX { u64::MAX } else { (a + b) as u64 }
}

/// Saturating `u64` multiplication, as a mathematical value.
pub open spec fn sat_mul(a: u64, b: u64) -> u64 {
    if a * b > u64::MAX { u64::MAX } else { (a * b) as u64 }
}

/// Quorum (total weight and distinct voters) plus a strict two-to-one
/// super-majority of weight for over against.
pub open spec fn spec_outcome(votes_for: u64, votes_against: u64, voter_count: nat) -> ProposalStatus {
    if sat_add(votes_for, votes_against) < QUORUM_MIN_TOTAL_WEIGHT || voter_count < QUORUM_MIN_VOTERS {
        ProposalStatus::Rejected
    } else if votes_for > sat_mul(votes_against, PASS_THRESHOLD_MULTIPLIER) {
        ProposalStatus::Passed
    } else {
        ProposalStatus::Rejected
    }
}

/// Decide a closed proposal: `Passed` under quorum and super-majority, else `Rejected`.
pub fn decide_proposal_outcome(proposal: &Proposal) -> (status: ProposalStatus)
    ensures
        status == spec_outcome(proposal.votes_for, proposal.votes_against, proposal.voters@.len()),
        status == ProposalStatus::Passed || status == ProposalStatus::Rejected,
        status == ProposalStatus::Passed <==> (
            proposal.votes_for + proposal.votes_against >= 30_000_000
            && proposal.voters@.len() >= 3
            && proposal.votes_for > 2 * proposal.votes_against),
{
    proof { law_outcome_by_weights(proposal.votes_for, proposal.votes_against, proposal.voters@.len()); }
    let total_weight = proposal.votes_for.saturating_add(proposal.votes_against);
    if total_weight < QUORUM_MIN_TOTAL_WEIGHT || proposal.voters.len() < QUORUM_MIN_VOTERS {
        return ProposalStatus::Rejected;
    }
    let threshold = match proposal.votes_against.checked_mul(PASS_THRESHOLD_MULTIPLIER) {
        Some(t) => t,
        None => u64::MAX,
    };
    if proposal.votes_for > threshold {
        ProposalStatus::Passed
    } else {
        ProposalStatus::Rejected
    }
}

/// Why a governance action was refused.
#[derive(Clone, Copy, PartialEq, Eq, Debug)]
pub enum GovernanceError {
    TitleTooLong { len: usize },
    ParamKeyTooLong { len: usize },
    ParamValueTooLong { len: usize },
    VotingEpochsOutOfRange { voting_epochs: u64 },
    KeyNotGovernable,
    InvalidParamValue(ParamValueError),
    ProposalNotFound { proposal_id: u64 },
    ProposalNotActive,
    VotingEnded,
    DuplicateVote,
}

/// The admission rules for a new proposal, checked in this order.
pub open spec fn admission_verdict(title: Seq<u8>, key: Seq<u8>, value: Seq<u8>, voting_epochs: u64) -> Result<(), GovernanceError> {
    if title.len() > MAX_PROPOSAL_TITLE_BYTES {
        Err(GovernanceError::TitleTooLong { len: title.len() as usize })
    } else if key.len() > MAX_PARAM_KEY_BYTES {
        Err(GovernanceError::ParamKeyTooLong { len: key.len() as usize })
    } else if value.len() > MAX_PARAM_VALUE_BYTES {
        Err(GovernanceError::ParamValueTooLong { len: value.len() as usize })
    } else if !(MIN_VOTING_EPOCHS <= voting_epochs <= MAX_VOTING_EPOCHS) {
        Err(GovernanceError::VotingEpochsOutOfRange { voting_epochs })
    } else if !governable_key(key) {
        Err(GovernanceError::KeyNotGovernable)
    } else {
        match param_value_verdict(key, value) {
            Ok(()) => Ok(()),
            Err(e) => Err(GovernanceError::InvalidParamValue(e)),
        }
    }
}

/// Check a `CreateProposal` action: bounded title, key and value; voting
/// window within `[MIN_VOTING_EPOCHS, MAX_VOTING_EPOCHS]`; allowlisted key;
/// valid value.
pub fn check_proposal_admission(title: &str, param_key: &str, param_value: &str, voting_epochs: u64)
    -> (r: Result<(), GovernanceError>)
    ensures
        r == admission_verdict(text(title), text(param_key), text(param_value), voting_epochs),
{
    let title_len = title.as_bytes().len();
    let key_len = param_key.as_bytes().len();
    let value_len = param_value.as_bytes().len();
    if title_len > MAX_PROPOSAL_TITLE_BYTES {
        return Err(GovernanceError::TitleTooLong { len: title_len });
    }
    if key_len > MAX_PARAM_KEY_BYTES {
        return Err(GovernanceError::ParamKeyTooLong { len: key_len });
    }
    if value_len > MAX_PARAM_VALUE_BYTES {
        return Err(GovernanceError::ParamValueTooLong { len: value_len });
    }
    if !(MIN_VOTING_EPOCHS <= voting_epochs && voting_epochs <= MAX_VOTING_EPOCHS) {
        return Err(GovernanceError::VotingEpochsOutOfRange { voting_epochs });
    }
    if !is_governable_param_key(param_key) {
        return Err(GovernanceError::KeyNotGovernable);
    }
    match validate_param_value(param_key, param_value) {
        Ok(()) => Ok(()),
        Err(e) => Err(GovernanceError::InvalidParamValue(e)),
    }
}

/// A fresh `Active` proposal with no votes; voting closes `voting_epochs`
/// after `current_epoch`.
pub fn new_proposal(
    proposal_id: u64,
    proposer: [u8; 32],
    title: String,
    param_key: String,
    param_value: String,
    current_epoch: u64,
    voting_epochs: u64,
) -> (p: Proposal)
    requires
        current_epoch + voting_epochs <= u64::MAX,
    ensures
        p.proposal_id == proposal_id,
        p.proposer == proposer,
        p.title == title,
        p.param_key == param_key,
        p.param_value == param_value,
        p.start_epoch == current_epoch,
        p.end_epoch == current_epoch + voting_epochs,
        p.votes_for == 0,
        p.votes_against == 0,
        p.status == ProposalStatus::Active,
        p.created_at == current_epoch,
        p.voters@.len() == 0,
{
    Proposal {
        proposal_id,
        proposer,
        title,
        param_key,
        param_value,
        start_epoch: current_epoch,
        end_epoch: current_epoch + voting_epochs,
        votes_for: 0,
        votes_against: 0,
        status: ProposalStatus::Active,
        created_at: current_epoch,
        voters: Vec::new(),
    }
}

/// Whether `voter` is among the proposal's voters.
fn has_voted(p: &Proposal, voter: &[u8; 32]) -> (r: bool)
    ensures
        r == voter_keys(*p).contains(voter@),
{
    let mut i: usize = 0;
    while i < p.voters.len()
        invariant
            0 <= i <= p.voters@.len(),
            forall|j: int| 0 <= j < i ==> p.voters@[j]@ != voter@,
        decreases p.voters@.len() - i,
    {
        if bytes32_eq(&p.voters[i], voter) {
            assert(voter_keys(*p)[i as int] == voter@);
            return true;
        }
        i = i + 1;
    }
    proof {
        if voter_keys(*p).contains(voter@) {
            let j = choose|j: int| 0 <= j < voter_keys(*p).len() && voter_keys(*p)[j] == voter@;
            assert(p.voters@[j]@ == voter@);
        }
    }
    false
}

/// Weight a voter contributes: their balance, capped at `MAX_VOTE_WEIGHT`.
pub open spec fn vote_weight(balance: u64) -> u64 {
    if balance < MAX_VOTE_WEIGHT { balance } else { MAX_VOTE_WEIGHT }
}

/// What casting a vote does: `before` becomes `after`, with verdict `r`.
pub open spec fn vote_outcome(
    before: Proposal,
    after: Proposal,
    r: Result<(), GovernanceError>,
    voter: [u8; 32],
    vote: bool,
    voter_balance: u64,
    current_epoch: u64,
) -> bool {
    &&& before.status != ProposalStatus::Active ==> r == Err::<(), GovernanceError>(GovernanceError::ProposalNotActive)
        && after == before
    &&& before.status == ProposalStatus::Active && current_epoch > before.end_epoch ==>
        r == Err::<(), GovernanceError>(GovernanceError::VotingEnded)
        && after == (Proposal {
            status: spec_outcome(before.votes_for, before.votes_against, before.voters@.len()),
            ..before
        })
    &&& before.status == ProposalStatus::Active && current_epoch <= before.end_epoch
        && voter_keys(before).contains(voter@) ==>
        r == Err::<(), GovernanceError>(GovernanceError::DuplicateVote) && after == before
    &&& before.status == ProposalStatus::Active && current_epoch <= before.end_epoch
        && !voter_keys(before).contains(voter@) ==> {
        &&& r == Ok::<(), GovernanceError>(())
        &&& after.voters@ == before.voters@.push(voter)
        &&& after.votes_for == if vote { sat_add(before.votes_for, vote_weight(voter_balance)) } else { before.votes_for }
        &&& after.votes_against == if vote { before.votes_against } else { sat_add(before.votes_against, vote_weight(voter_balance)) }
        &&& after == (Proposal {
            voters: after.voters,
            votes_for: after.votes_for,
            votes_against: after.votes_against,
            ..before
        })
    }
}

/// Cast `voter`'s vote (`true` = for) with their current `voter_balance`.
///
/// Refused when the proposal is not `Active`; when the voting window has
/// closed (`current_epoch > end_epoch`), in which case the proposal is
/// decided on the spot and the vote refused; and when `voter` already voted.
/// Otherwise the voter is recorded and their capped weight added
/// (saturating) to the chosen side.
pub fn cast_vote(p: &mut Proposal, voter: [u8; 32], vote: bool, voter_balance: u64, current_epoch: u64)
    -> (r: Result<(), GovernanceError>)
    requires
        voters_distinct(*old(p)),
    ensures
        voters_distinct(*final(p)),
        vote_outcome(*old(p), *final(p), r, voter, vote, voter_balance, current_epoch),
{
    if p.status != ProposalStatus::Active {
        return Err(GovernanceError::ProposalNotActive);
    }
    if current_epoch > p.end_epoch {
        p.status = decide_proposal_outcome(p);
        return Err(GovernanceError::VotingEnded);
    }
    if has_voted(p, &voter) {
        return Err(GovernanceError::DuplicateVote);
    }
    let ghost before = voter_keys(*p);
    p.voters.push(voter);
    proof {
        assert(voter_keys(*p) =~= before.push(voter@));
        assert forall|a: int, b: int| 0 <= a < b < voter_keys(*p).len() implies voter_keys(*p)[a] != voter_keys(*p)[b] by {
            if b == before.len() {
                assert(before[a] == voter_keys(*p)[a]);
            }
        }
    }
    let weight = if voter_balance < MAX_VOTE_WEIGHT { voter_balance } else { MAX_VOTE_WEIGHT };
    if vote {
        p.votes_for = p.votes_for.saturating_add(weight);
    } else {
        p.votes_against = p.votes_against.saturating_add(weight);
    }
    Ok(())
}

/// A proposal's status once the sweep at `epoch` has decided it: an
/// `Active` proposal whose window closed before `epoch` gets its vote's
/// outcome; any other keeps its status.
pub open spec fn decided_status(p: Proposal, epoch: u64) -> ProposalStatus {
    if p.status == ProposalStatus::Active && epoch > p.end_epoch {
        spec_outcome(p.votes_for, p.votes_against, p.voters@.len())
    } else {
        p.status
    }
}

/// A proposal's status after the per-block governance sweep at `epoch`:
/// an `Active` proposal whose window closed is decided; a `Passed` one whose
/// timelock has elapsed becomes `Executed`.
pub open spec fn swept_status(p: Proposal, epoch: u64) -> ProposalStatus {
    let decided = decided_status(p, epoch);
    if decided == ProposalStatus::Passed && epoch >= sat_add(p.end_epoch, GOVERNANCE_TIMELOCK_EPOCHS) {
        ProposalStatus::Executed
    } else {
        decided
    }
}

/// The proposals of `ps` that the sweep at `epoch` executes, in order.
pub open spec fn activated(ps: Seq<Proposal>, epoch: u64) -> Seq<Proposal>
    decreases ps.len(),
{
    if ps.len() == 0 {
        Seq::empty()
    } else {
        let rest = activated(ps.drop_last(), epoch);
        let p = ps.last();
        if p.status != ProposalStatus::Executed && swept_status(p, epoch) == ProposalStatus::Executed {
            rest.push(p)
        } else {
            rest
        }
    }
}

/// A parameter assignment that governance activated.
#[derive(Clone, Debug)]
pub struct ActivatedParam {
    pub key: String,
    pub value: String,
}

/// The per-block governance sweep. Decides every `Active` proposal whose
/// voting window closed before `current_epoch`, then executes every `Passed`
/// proposal whose timelock (`end_epoch + GOVERNANCE_TIMELOCK_EPOCHS`,
/// saturating) has elapsed. Returns the activated `(key, value)` pairs in
/// proposal order; the caller writes them as governance parameters.
pub fn finalize_expired_proposals(proposals: &mut Vec<Proposal>, current_epoch: u64) -> (params: Vec<ActivatedParam>)
    ensures
        final(proposals)@.len() == old(proposals)@.len(),
        forall|i: int| 0 <= i < final(proposals)@.len() ==> #[trigger] final(proposals)@[i] == (Proposal {
            status: swept_status(old(proposals)@[i], current_epoch),
            ..old(proposals)@[i]
        }),
        params@.len() == activated(old(proposals)@, current_epoch).len(),
        forall|i: int| 0 <= i < params@.len() ==> {
            &&& (#[trigger] params@[i]).key == activated(old(proposals)@, current_epoch)[i].param_key
            &&& params@[i].value == activated(old(proposals)@, current_epoch)[i].param_value
        },
{
    let mut params: Vec<ActivatedParam> = Vec::new();
    let mut i: usize = 0;
    let ghost orig = proposals@;
    while i < proposals.len()
        invariant
            0 <= i <= proposals@.len(),
            proposals@.len() == orig.len(),
            forall|j: int| 0 <= j < i ==> #[trigger] proposals@[j] == (Proposal {
                status: swept_status(orig[j], current_epoch),
                ..orig[j]
            }),
            forall|j: int| i <= j < proposals@.len() ==> #[trigger] proposals@[j] == orig[j],
            params@.len() == activated(orig.take(i as int), current_epoch).len(),
            forall|j: int| 0 <= j < params@.len() ==> {
                &&& (#[trigger] params@[j]).key == activated(orig.take(i as int), current_epoch)[j].param_key
                &&& params@[j].value == activated(orig.take(i as int), current_epoch)[j].param_value
            },
        decreases proposals@.len() - i,
    {
        let status = proposals[i].status;
        let end_epoch = proposals[i].end_epoch;
        let mut new_status = status;
        if status == ProposalStatus::Active && current_epoch > end_epoch {
            new_status = decide_proposal_outcome(&proposals[i]);
        }
        if new_status == ProposalStatus::Passed && current_epoch >= end_epoch.saturating_add(GOVERNANCE_TIMELOCK_EPOCHS) {
            new_status = ProposalStatus::Executed;
            let key = proposals[i].param_key.clone();
            let value = proposals[i].param_value.clone();
            params.push(ActivatedParam { key, value });
        }
        proposals[i].status = new_status;
        proof {
            assert(orig.take(i + 1).drop_last() =~= orig.take(i as int));
        }
        i = i + 1;
    }
    proof { assert(orig.take(orig.len() as int) =~= orig); }
    params
}

/// A governance action.
pub enum GovernanceAction {
    CreateProposal { title: String, param_key: String, param_value: String, voting_epochs: u64 },
    CastVote { proposal_id: u64, vote: bool },
}

/// A governance transaction.
pub struct GovernanceTx {
    pub sender: [u8; 32],
    pub nonce: u64,
    pub action: GovernanceAction,
}

/// The proposal store: the proposal at position `i` has id `i`, and no
/// proposal counts a voter twice.
pub open spec fn proposal_store(ps: Seq<Proposal>) -> bool {
    forall|i: int| 0 <= i < ps.len() ==> (#[trigger] ps[i]).proposal_id == i && voters_distinct(ps[i])
}

/// The UTF-8 bytes of an owned string.
pub open spec fn string_bytes(s: String) -> Seq<u8> {
    vstd::utf8::encode_utf8(s@)
}

/// A governance refusal as an execution error.
pub open spec fn governance_error(e: GovernanceError) -> ExecutionError {
    ExecutionError::ContractError(ContractFault::Governance(e))
}

/// Execute a governance transaction from `sender` against the proposal
/// store.
///
/// The sender's nonce must match; it is then bumped and the demurrage
/// anchor moved to `epoch`, whatever the action's verdict. A new proposal
/// must pass [`admission_verdict`]; it is stored under the next id, open
/// from `epoch` for `voting_epochs`. A vote needs an existing proposal and
/// follows [`vote_outcome`], weighted by the sender's balance.
pub fn execute_governance(sender: &mut Account, proposals: &mut Vec<Proposal>, tx: GovernanceTx, epoch: u64)
    -> (r: Result<(), ExecutionError>)
    requires
        proposal_store(old(proposals)@),
        old(sender).nonce == tx.nonce ==> old(sender).nonce < u64::MAX,
        old(proposals)@.len() < u64::MAX,
        tx.action matches GovernanceAction::CreateProposal { title, param_key, param_value, voting_epochs } ==> (
            admission_verdict(string_bytes(title), string_bytes(param_key), string_bytes(param_value), voting_epochs) is Ok
                ==> epoch + voting_epochs <= u64::MAX),
    ensures
        proposal_store(final(proposals)@),
        old(sender).nonce != tx.nonce ==> r == Err::<(), ExecutionError>(ExecutionError::InvalidNonce {
            expected: old(sender).nonce, got: tx.nonce }) && *final(sender) == *old(sender)
            && final(proposals)@ == old(proposals)@,
        old(sender).nonce == tx.nonce ==> {
            &&& *final(sender) == (Account { nonce: (old(sender).nonce + 1) as u64, last_touched_epoch: epoch, ..*old(sender) })
            &&& match tx.action {
                GovernanceAction::CreateProposal { title, param_key, param_value, voting_epochs } =>
                    match admission_verdict(string_bytes(title), string_bytes(param_key), string_bytes(param_value), voting_epochs) {
                        Err(e) => r == Err::<(), ExecutionError>(governance_error(e)) && final(proposals)@ == old(proposals)@,
                        Ok(()) => {
                            let id = old(proposals)@.len();
                            let p = final(proposals)@[id as int];
                            &&& r == Ok::<(), ExecutionError>(())
                            &&& final(proposals)@.len() == id + 1
                            &&& final(proposals)@.take(id as int) == old(proposals)@
                            &&& p.proposal_id == id
                            &&& p.proposer == tx.sender
                            &&& p.title == title
                            &&& p.param_key == param_key
                            &&& p.param_value == param_value
                            &&& p.start_epoch == epoch
                            &&& p.end_epoch == epoch + voting_epochs
                            &&& p.votes_for == 0
                            &&& p.votes_against == 0
                            &&& p.status == ProposalStatus::Active
                            &&& p.created_at == epoch
                            &&& p.voters@.len() == 0
                        },
                    },
                GovernanceAction::CastVote { proposal_id, vote } =>
                    if proposal_id >= old(proposals)@.len() {
                        r == Err::<(), ExecutionError>(governance_error(GovernanceError::ProposalNotFound { proposal_id }))
                            && final(proposals)@ == old(proposals)@
                    } else {
                        let i = proposal_id as int;
                        &&& final(proposals)@.len() == old(proposals)@.len()
                        &&& forall|j: int| 0 <= j < old(proposals)@.len() && j != i ==> #[trigger] final(proposals)@[j] == old(proposals)@[j]
                        &&& exists|inner: Result<(), GovernanceError>| {
                            &&& vote_outcome(old(proposals)@[i], final(proposals)@[i], inner, tx.sender, vote, old(sender).balance, epoch)
                            &&& r == match inner { Ok(()) => Ok::<(), ExecutionError>(()), Err(e) => Err(governance_error(e)) }
                        }
                    },
            }
        },
{
    if sender.nonce != tx.nonce {
        return Err(ExecutionError::InvalidNonce { expected: sender.nonce, got: tx.nonce });
    }
    sender.nonce = sender.nonce + 1;
    sender.last_touched_epoch = epoch;
    let voter_balance = sender.balance;
    match tx.action {
        GovernanceAction::CreateProposal { title, param_key, param_value, voting_epochs } => {
            if let Err(e) = check_proposal_admission(title.as_str(), param_key.as_str(), param_value.as_str(), voting_epochs) {
                return Err(ExecutionError::ContractError(ContractFault::Governance(e)));
            }
            let id = proposals.len() as u64;
            let p = new_proposal(id, tx.sender, title, param_key, param_value, epoch, voting_epochs);
            let ghost before = proposals@;
            proposals.push(p);
            proof {
                assert(proposals@.take(before.len() as int) =~= before);
                assert forall|i: int| 0 <= i < proposals@.len() implies (#[trigger] proposals@[i]).proposal_id == i && voters_distinct(proposals@[i]) by {
                    if i == before.len() {
                        assert(voter_keys(proposals@[i]) =~= Seq::<Seq<u8>>::empty());
                    } else {
                        assert(proposals@[i] == before[i]);
                    }
                }
            }
            Ok(())
        },
        GovernanceAction::CastVote { proposal_id, vote } => {
            if proposal_id >= proposals.len() as u64 {
                return Err(ExecutionError::ContractError(ContractFault::Governance(
                    GovernanceError::ProposalNotFound { proposal_id })));
            }
            let i = proposal_id as usize;
            let ghost before = proposals@;
            proof { assert(voters_distinct(before[i as int])); }
            let inner = cast_vote(&mut proposals[i], tx.sender, vote, voter_balance, epoch);
            proof {
                assert forall|j: int| 0 <= j < proposals@.len() implies (#[trigger] proposals@[j]).proposal_id == j && voters_distinct(proposals@[j]) by {
                    if j != i {
                        assert(proposals@[j] == before[j]);
                    } else {
                        assert(proposals@[j].proposal_id == before[j].proposal_id);
                    }
                }
            }
            match inner {
                Ok(()) => Ok(()),
                Err(e) => Err(ExecutionError::ContractError(ContractFault::Governance(e))),
            }
        },
    }
}

/// Timelock: the sweep moves a proposal to `Executed` only if it passed
/// (before or at this sweep) and only once the epoch reaches the end of its
/// vote plus `GOVERNANCE_TIMELOCK_EPOCHS`.
pub proof fn law_execution_waits_for_timelock(p: Proposal, epoch: u64)
    requires
        p.status != ProposalStatus::Executed,
        swept_status(p, epoch) == ProposalStatus::Executed,
    ensures
        epoch >= sat_add(p.end_epoch, GOVERNANCE_TIMELOCK_EPOCHS),
        p.status == ProposalStatus::Passed || (p.status == ProposalStatus::Active && epoch > p.end_epoch
            && spec_outcome(p.votes_for, p.votes_against, p.voters@.len()) == ProposalStatus::Passed),
{
}

/// No whale passes a proposal alone: with fewer than `QUORUM_MIN_VOTERS`
/// distinct voters a proposal is rejected whatever the weights.
pub proof fn law_quorum_needs_voters(votes_for: u64, votes_against: u64, voter_count: nat)
    requires
        voter_count < QUORUM_MIN_VOTERS,
    ensures
        spec_outcome(votes_for, votes_against, voter_count) == ProposalStatus::Rejected,
{
}

/// Whether the sweep at `epoch` executes `p` (and so writes its parameter).
pub open spec fn executed_by_sweep(p: Proposal, epoch: u64) -> bool {
    p.status != ProposalStatus::Executed && swept_status(p, epoch) == ProposalStatus::Executed
}

/// Per proposal: the sweep writes a proposal's parameter, in proposal order,
/// exactly when the proposal is not yet executed, has passed (its vote being
/// decided by this sweep if its window closed while it was `Active`) and its
/// timelock has elapsed; that proposal becomes `Executed`. No parameter is
/// written for a proposal that has not passed.
pub proof fn law_sweep_per_proposal(ps: Seq<Proposal>, epoch: u64)
    ensures
        activated(ps, epoch) == ps.filter(|p: Proposal| executed_by_sweep(p, epoch)),
        forall|p: Proposal| #[trigger] executed_by_sweep(p, epoch) <==> (
            p.status != ProposalStatus::Executed
            && decided_status(p, epoch) == ProposalStatus::Passed
            && epoch >= sat_add(p.end_epoch, 5)),
        forall|p: Proposal| #[trigger] executed_by_sweep(p, epoch) ==> swept_status(p, epoch) == ProposalStatus::Executed,
        forall|p: Proposal| p.status == ProposalStatus::Active && epoch > p.end_epoch
            && !executed_by_sweep(p, epoch) ==> #[trigger] swept_status(p, epoch) == spec_outcome(p.votes_for, p.votes_against, p.voters@.len()),
    decreases ps.len(),
{
    reveal_with_fuel(Seq::<Proposal>::filter, 1);
    if ps.len() > 0 {
        law_sweep_per_proposal(ps.drop_last(), epoch);
    }
}

/// The vote rule on the counts themselves: a proposal passes exactly when
/// all its vote weight, for and against, reaches 30 000 000, at least three
/// accounts voted, and the weight for is more than twice the weight against;
/// otherwise it is rejected.
pub proof fn law_outcome_by_weights(votes_for: u64, votes_against: u64, voter_count: nat)
    ensures
        spec_outcome(votes_for, votes_against, voter_count) == ProposalStatus::Passed
            || spec_outcome(votes_for, votes_against, voter_count) == ProposalStatus::Rejected,
        spec_outcome(votes_for, votes_against, voter_count) == ProposalStatus::Passed <==> (
            votes_for + votes_against >= 30_000_000
            && voter_count >= 3
            && votes_for > 2 * votes_against),
{
}

/// More weight in favour, or more voters, never turns a passing vote into a
/// rejection.
pub proof fn law_outcome_monotone(votes_for: u64, votes_against: u64, voter_count: nat, more_for: u64, more_voters: nat)
    requires
        votes_for <= more_for,
        voter_count <= more_voters,
        spec_outcome(votes_for, votes_against, voter_count) == ProposalStatus::Passed,
    ensures
        spec_outcome(more_for, votes_against, more_voters) == ProposalStatus::Passed,
{
    law_outcome_by_weights(votes_for, votes_against, voter_count);
    law_outcome_by_weights(more_for, votes_against, more_voters);
}

/// Parameter values, key by key: a block gas limit must be a decimal `u64`
/// in `[1 000, 10 000 000 000]`; a base-fee floor or ceiling any decimal
/// `u64`; a target utilization a number in `[0, 1]`; an upgrade value 64
/// hexadecimal digits; any other key is not governable.
pub proof fn law_param_values(key: Seq<u8>, value: Seq<u8>)
    ensures
        param_value_verdict(ascii("block_gas_limit"@), value) is Ok <==>
            (u64_text(value) matches Some(v) && 1_000 <= v && v <= 10_000_000_000),
        param_value_verdict(ascii("base_fee_floor"@), value) is Ok <==> u64_text(value) is Some,
        param_value_verdict(ascii("base_fee_ceiling"@), value) is Ok <==> u64_text(value) is Some,
        param_value_verdict(ascii("target_gas_utilization"@), value) is Ok <==> unit_interval_text(value) == UnitIntervalText::Inside,
        ascii("upgrade_contract:"@).is_prefix_of(key) ==> (param_value_verdict(key, value) is Ok <==>
            (value.len() == 64 && forall|i: int| 0 <= i < value.len() ==> is_hex_digit(#[trigger] value[i]))),
        !governable_key(key) ==> param_value_verdict(key, value) == Err::<(), ParamValueError>(ParamValueError::KeyNotGovernable),
{
    reveal_strlit("block_gas_limit");
    reveal_strlit("base_fee_floor");
    reveal_strlit("base_fee_ceiling");
    reveal_strlit("target_gas_utilization");
    reveal_strlit("upgrade_contract:");
    assert(key_base_fee_floor() != key_block_gas_limit()) by { assert(key_base_fee_floor()[1] != key_block_gas_limit()[1]); }
    assert(key_base_fee_ceiling() != key_block_gas_limit()) by { assert(key_base_fee_ceiling()[1] != key_block_gas_limit()[1]); }
    assert(key_base_fee_ceiling() != key_base_fee_floor()) by { assert(key_base_fee_ceiling()[9] != key_base_fee_floor()[9]); }
    assert(key_target_gas_utilization() != key_block_gas_limit()) by { assert(key_target_gas_utilization()[0] != key_block_gas_limit()[0]); }
    assert(key_target_gas_utilization() != key_base_fee_floor()) by { assert(key_target_gas_utilization()[0] != key_base_fee_floor()[0]); }
    assert(key_target_gas_utilization() != key_base_fee_ceiling()) by { assert(key_target_gas_utilization()[0] != key_base_fee_ceiling()[0]); }
    if ascii("upgrade_contract:"@).is_prefix_of(key) {
        assert(key[0] == ascii("upgrade_contract:"@)[0]);
        assert(key != key_block_gas_limit()) by { assert(key_block_gas_limit()[0] != key[0]); }
        assert(key != key_base_fee_floor()) by { assert(key_base_fee_floor()[0] != key[0]); }
        assert(key != key_base_fee_ceiling()) by { assert(key_base_fee_ceiling()[0] != key[0]); }
        assert(key != key_target_gas_utilization()) by { assert(key_target_gas_utilization()[0] != key[0]); }
    }
}

/// Proposal admission, on the proposal itself: a title of at most 200
/// bytes, a key of at most 64, a value of at most 256, a voting window of
/// 10 to 100 000 epochs, a governable key and a valid value.
pub proof fn law_admission(title: Seq<u8>, key: Seq<u8>, value: Seq<u8>, voting_epochs: u64)
    ensures
        admission_verdict(title, key, value, voting_epochs) is Ok <==> (
            title.len() <= 200 && key.len() <= 64 && value.len() <= 256
            && 10 <= voting_epochs && voting_epochs <= 100_000
            && governable_key(key) && param_value_verdict(key, value) is Ok),
{
}

/// An accepted vote adds the voter's balance, capped at 10 000 000, to the
/// side it votes for (saturating) and records the voter; the other side is
/// untouched. A vote on an open proposal is refused only as a repeat.
pub proof fn law_vote_weight(
    before: Proposal,
    after: Proposal,
    r: Result<(), GovernanceError>,
    voter: [u8; 32],
    vote: bool,
    voter_balance: u64,
    current_epoch: u64,
)
    requires
        vote_outcome(before, after, r, voter, vote, voter_balance, current_epoch),
        before.status == ProposalStatus::Active,
        current_epoch <= before.end_epoch,
    ensures
        r is Ok <==> !voter_keys(before).contains(voter@),
        r is Ok ==> {
            let w: int = if voter_balance < 10_000_000 { voter_balance as int } else { 10_000_000 };
            &&& after.voters@.len() == before.voters@.len() + 1
            &&& vote ==> after.votes_for == (if before.votes_for + w > u64::MAX { u64::MAX as int } else { before.votes_for + w })
                && after.votes_against == before.votes_against
            &&& !vote ==> after.votes_against == (if before.votes_against + w > u64::MAX { u64::MAX as int } else { before.votes_against + w })
                && after.votes_for == before.votes_for
        },
{
}

} // verus!
