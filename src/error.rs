use vstd::prelude::*;

verus! {

/// The ways in which a registry operation can fail. A failed operation leaves
/// the registry as it was.
#[derive(Clone, Copy, Debug, PartialEq, Eq, Structural)]
pub enum Error {
    /// Account isn't found.
    NotFound,
    /// No identity found.
    NoIdentity,
    /// Sticky judgement.
    StickyJudgement,
    /// Judgement given.
    JudgementGiven,
    /// Invalid judgement.
    InvalidJudgement,
    /// The target is invalid.
    InvalidTarget,
    /// Too many judgements for this identity.
    TooManyJudgements,
    /// An identity field is longer than the configured maximum.
    FieldTooLong,
    /// The balance service could not reserve the additional deposit.
    InsufficientBalance,
}

} // verus!
