use vstd::prelude::*;

verus! {

/// Why one invocation of "distribute rewards" was aborted.
#[derive(Clone, Copy, Debug, PartialEq, Eq, Structural)]
pub enum DistributionError {
    /// The caller is not the configured administrator; nothing changed.
    Unauthorized,
    /// The weight provider failed or timed out; nothing changed.
    ProviderUnavailable,
    /// The provider listed one participant twice; nothing changed.
    DuplicateParticipant,
    /// The sum of the weights, or a balance addition, does not fit its width.
    ArithmeticOverflow,
    /// A credit of the batch could not be stored; the first `applied` credits
    /// of the batch are in the ledger and no record was written.
    LedgerWriteFailed { applied: usize },
}

} // verus!
