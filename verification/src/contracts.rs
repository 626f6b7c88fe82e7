//! Admission of contract and script transactions: template names, the call
//! depth guard, script argument text and the route a refresh takes.

use vstd::prelude::*;
use crate::errors::{ContractFault, ExecutionError};
use crate::text::{ascii, bytes_eq, text};

verus! {

/// Deepest nesting of contract or script calls.
pub const MAX_CALL_DEPTH: usize = 64;

/// The built-in contract templates.
#[derive(Clone, Copy, PartialEq, Eq, Structural, Debug)]
pub enum ContractTemplate {
    DecayingToken,
    MortalNFT,
    ThermodynamicEscrow,
    DecayingAuction,
    StakingPool,
    DAOVote,
    TemporalContract,
}

/// The template a deployment names, if any.
pub open spec fn template_named(name: Seq<u8>) -> Option<ContractTemplate> {
    if name == ascii("DecayingToken"@) {
        Some(ContractTemplate::DecayingToken)
    } else if name == ascii("MortalNFT"@) {
        Some(ContractTemplate::MortalNFT)
    } else if name == ascii("ThermodynamicEscrow"@) {
        Some(ContractTemplate::ThermodynamicEscrow)
    } else if name == ascii("DecayingAuction"@) {
        Some(ContractTemplate::DecayingAuction)
    } else if name == ascii("StakingPool"@) {
        Some(ContractTemplate::StakingPool)
    } else if name == ascii("DAOVote"@) {
        Some(ContractTemplate::DAOVote)
    } else if name == ascii("TemporalContract"@) {
        Some(ContractTemplate::TemporalContract)
    } else {
        None
    }
}

fn ascii_bytes(s: &str) -> (b: &[u8])
    requires
        vstd::string::is_ascii(s),
    ensures
        b@ == ascii(s@),
{
    broadcast use vstd::string::is_ascii_spec_bytes;
    let b = s.as_bytes();
    assert(b@ =~= ascii(s@));
    b
}

/// The template a deployment names; an unknown name is refused.
pub fn parse_template(name: &str) -> (r: Result<ContractTemplate, ExecutionError>)
    ensures
        r == match template_named(text(name)) {
            Some(t) => Ok(t),
            None => Err(ExecutionError::ContractError(ContractFault::UnknownTemplate)),
        },
{
    let n = name.as_bytes();
    proof {
        reveal_strlit("DecayingToken");
        reveal_strlit("MortalNFT");
        reveal_strlit("ThermodynamicEscrow");
        reveal_strlit("DecayingAuction");
        reveal_strlit("StakingPool");
        reveal_strlit("DAOVote");
        reveal_strlit("TemporalContract");
    }
    if bytes_eq(n, ascii_bytes("DecayingToken")) {
        Ok(ContractTemplate::DecayingToken)
    } else if bytes_eq(n, ascii_bytes("MortalNFT")) {
        Ok(ContractTemplate::MortalNFT)
    } else if bytes_eq(n, ascii_bytes("ThermodynamicEscrow")) {
        Ok(ContractTemplate::ThermodynamicEscrow)
    } else if bytes_eq(n, ascii_bytes("DecayingAuction")) {
        Ok(ContractTemplate::DecayingAuction)
    } else if bytes_eq(n, ascii_bytes("StakingPool")) {
        Ok(ContractTemplate::StakingPool)
    } else if bytes_eq(n, ascii_bytes("DAOVote")) {
        Ok(ContractTemplate::DAOVote)
    } else if bytes_eq(n, ascii_bytes("TemporalContract")) {
        Ok(ContractTemplate::TemporalContract)
    } else {
        Err(ExecutionError::ContractError(ContractFault::UnknownTemplate))
    }
}

/// Script call arguments that need no parsing: the empty text or `[]`.
pub open spec fn script_args_trivial(args: Seq<u8>) -> bool {
    args.len() == 0 || args == ascii("[]"@)
}

/// Whether a script call's argument text stands for no arguments at all.
pub fn script_args_are_empty(args: &str) -> (r: bool)
    ensures
        r == script_args_trivial(text(args)),
{
    let a = args.as_bytes();
    proof { reveal_strlit("[]"); }
    a.len() == 0 || bytes_eq(a, ascii_bytes("[]"))
}

/// How deeply contract and script calls are nested.
#[derive(Clone, Copy, PartialEq, Eq, Structural, Debug)]
pub struct CallDepth {
    pub depth: usize,
}

/// The depth inside a call entered at `c`: `None` when the limit refuses it.
pub open spec fn entered(c: CallDepth) -> Option<CallDepth> {
    if c.depth >= MAX_CALL_DEPTH { None } else { Some(CallDepth { depth: (c.depth + 1) as usize }) }
}

/// The depth after leaving a call made at `c` (never below zero).
pub open spec fn left(c: CallDepth) -> CallDepth {
    CallDepth { depth: if c.depth == 0 { 0 } else { (c.depth - 1) as usize } }
}

impl CallDepth {
    pub fn new() -> (c: CallDepth)
        ensures
            c.depth == 0,
    {
        CallDepth { depth: 0 }
    }

    /// Enter a call: refused at `MAX_CALL_DEPTH`, else one level deeper.
    pub fn enter(&mut self) -> (r: Result<(), ExecutionError>)
        ensures
            match entered(*old(self)) {
                None => r == Err::<(), ExecutionError>(ExecutionError::CallDepthExceeded(MAX_CALL_DEPTH))
                    && *final(self) == *old(self),
                Some(d) => r == Ok::<(), ExecutionError>(()) && *final(self) == d,
            },
    {
        if self.depth >= MAX_CALL_DEPTH {
            return Err(ExecutionError::CallDepthExceeded(MAX_CALL_DEPTH));
        }
        self.depth = self.depth + 1;
        Ok(())
    }

    /// Leave a call (saturating at zero).
    pub fn leave(&mut self)
        ensures
            *final(self) == left(*old(self)),
    {
        if self.depth > 0 {
            self.depth = self.depth - 1;
        }
    }
}

/// What a refresh does: refresh a live object, else resurrect its ghost,
/// else fail because there is neither.
#[derive(Clone, Copy, PartialEq, Eq, Structural, Debug)]
pub enum RefreshRoute {
    Refresh,
    Resurrect,
    NotFound,
}

/// The route a refresh of an object takes.
pub fn refresh_route(object_exists: bool, ghost_exists: bool) -> (r: RefreshRoute)
    ensures
        r == if object_exists {
            RefreshRoute::Refresh
        } else if ghost_exists {
            RefreshRoute::Resurrect
        } else {
            RefreshRoute::NotFound
        },
{
    if object_exists {
        RefreshRoute::Refresh
    } else if ghost_exists {
        RefreshRoute::Resurrect
    } else {
        RefreshRoute::NotFound
    }
}

/// Entering a call and then leaving it, whether the call succeeded or
/// failed, leaves the depth where it was; at the limit nothing is entered
/// and the depth stays put.
pub proof fn law_enter_leave_restores_depth(c: CallDepth)
    ensures
        match entered(c) {
            Some(d) => left(d) == c,
            None => c.depth >= MAX_CALL_DEPTH,
        },
{
}

/// Calls nest at most 64 deep: from depth `d` a call is entered exactly
/// when `d < 64`, one level deeper; so starting from zero, exactly 64
/// nested calls succeed and the 65th is refused.
pub proof fn law_call_depth_limit(c: CallDepth)
    ensures
        entered(c) is Some <==> c.depth < 64,
        c.depth < 64 ==> entered(c) == Some(CallDepth { depth: (c.depth + 1) as usize }),
        entered(CallDepth { depth: 63 }) == Some(CallDepth { depth: 64 }),
        entered(CallDepth { depth: 64 }) is None,
{
}

} // verus!
