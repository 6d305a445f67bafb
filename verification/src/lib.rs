//! A ledger-resident wishlist: users register short text wishes on their own
//! append-only lists, and a single administrator marks entries fulfilled.
//!
//! The state machine in [`wishlist`] is the verified core: per-user keyed
//! collections with monotonic id allocation, a hard mutation deadline, a
//! denylist gate, and the authorization discipline binding each operation to
//! the principal that must approve it. The hosting ledger (clock, sequence
//! numbers, signature checks, the keyed persistent store and its retention
//! bookkeeping, the event sink) stays outside: operations take the host's
//! readings as arguments and leave the notifications and storage-lifetime
//! renewals they owe in outward logs for the host to perform.

pub mod errors;
pub mod events;
pub mod identity;
pub mod storage;
pub mod wishlist;
