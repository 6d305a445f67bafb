use vstd::prelude::*;

verus! {

/// Why an operation was refused. Every failure is fatal to the invocation:
/// nothing is persisted and no notification is emitted.
#[derive(Clone, Copy, Debug, PartialEq, Eq, Structural)]
pub enum ContractError {
    /// Fulfillment named an id absent from the target user's list.
    WishNotFound,
    /// An addition arrived at or after the configured deadline.
    DeadlineExceeded,
    /// An addition came from a denylisted principal.
    Forbidden,
    /// The principal whose approval the operation needs did not authorize it.
    Unauthorized,
    /// The configuration was read before the one-time bootstrap ran.
    PreconditionMissing,
}

} // verus!
