//! Stake-weighted sortition and bounded quorum voting.
//!
//! The crate has two halves. The sortition half derives, from a
//! participation rate and a relative stake, an integer threshold over the
//! 128-bit output space of a verifiable random function, and decides and
//! verifies eligibility against that threshold. The voting half keeps one
//! bounded voting round per task, aggregates weighted votes per outcome,
//! and finalizes a round into a summary once a pluggable quorum predicate
//! holds.
use vstd::prelude::*;

pub mod fraction;
pub mod kv;
pub mod sortition;
pub mod votes;
pub mod voting;
pub mod vrf;

verus! {

/// The voting power carried by one voter for one task.
pub type Power = u64;

/// Everything that can go wrong in the voting state machine; all of
/// these are ordinary, recoverable outcomes.
#[derive(Clone, Copy, Debug, PartialEq, Eq, Structural)]
pub enum Error {
    /// A round already exists for the task.
    VoteInProgress,
    /// A capacity bound (outcomes per round, or voters per outcome) is
    /// exhausted.
    TooManyVoters,
    /// No round exists for the task.
    UnknownTask,
    /// The power policy does not recognize the voter for the task.
    UnknownVoter,
    /// The voter already backs this outcome.
    DuplicateVoter,
    /// A tally ran over a round in which no outcome has any power.
    NoWinner,
}

} // verus!
