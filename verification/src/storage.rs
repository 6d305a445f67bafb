use vstd::prelude::*;

use crate::identity::Address;

verus! {

/// Keys of the host's keyed persistent store: one wish list and one id
/// counter per user, and three configuration singletons in the instance
/// namespace.
#[derive(Clone, Copy, Debug, PartialEq, Eq, Structural)]
pub enum DataKey {
    Wishes(Address),
    NextId(Address),
    ChristmasDeadline,
    Admin,
    NaughtyList,
}

/// One storage-retention renewal owed to the host after an operation. Active
/// data must have its lifetime bumped on every access, or the ledger reclaims
/// it; the thresholds are the host's policy, so the core only names what to
/// renew.
#[derive(Clone, Copy, Debug, PartialEq, Eq, Structural)]
pub enum Renewal {
    /// Extend the retention of one persistent entry.
    Persistent(DataKey),
    /// Extend the retention of the configuration (instance) namespace.
    Instance,
}

} // verus!
