//! The faults the replay engine can report. All of them are fatal for the
//! instance being replayed: the engine aborts with no partial result.

use vstd::prelude::*;

verus! {

/// A fatal fault while replaying an instruction stream.
///
/// The strict missing-identifier policy is adopted uniformly: a `Swap`
/// whose identifier was never registered by a prior `Add` is the fault
/// [`Fault::UnknownId`], never a silent no-op.
#[derive(Clone, Copy, Debug, PartialEq, Eq, Structural)]
pub enum Fault {
    /// The instruction stream is empty.
    EmptyStream,
    /// The stream's first record is not an `Add`.
    FirstNotAdd,
    /// Two insertions into the same tree carry equal rank.
    DuplicateRank,
    /// A `Swap` references an identifier with no prior registration.
    UnknownId,
    /// An identifier lies outside the id table's declared capacity.
    IdOutOfBounds,
    /// The arena cannot issue another handle.
    ArenaFull,
    /// A handle passed to arena access is out of range.
    InvalidHandle,
    /// An input line is not a well-formed instruction.
    MalformedLine,
}

impl Fault {
    /// A short human-readable name for the fault.
    pub fn describe(&self) -> (s: &'static str)
        ensures
            s@.len() > 0,
    {
        proof {
            reveal_strlit("empty instruction stream");
            reveal_strlit("first record is not an Add");
            reveal_strlit("duplicate rank in one tree");
            reveal_strlit("swap of an unregistered identifier");
            reveal_strlit("identifier out of bounds");
            reveal_strlit("arena full");
            reveal_strlit("handle out of range");
            reveal_strlit("malformed instruction line");
        }
        match self {
            Fault::EmptyStream => "empty instruction stream",
            Fault::FirstNotAdd => "first record is not an Add",
            Fault::DuplicateRank => "duplicate rank in one tree",
            Fault::UnknownId => "swap of an unregistered identifier",
            Fault::IdOutOfBounds => "identifier out of bounds",
            Fault::ArenaFull => "arena full",
            Fault::InvalidHandle => "handle out of range",
            Fault::MalformedLine => "malformed instruction line",
        }
    }
}

} // verus!
