use vstd::prelude::*;

use crate::identity::Address;

verus! {

/// Notification that a wish was added; `add` carries the new wish's id.
#[derive(Clone, Copy, Debug, PartialEq, Eq, Structural)]
pub struct WishAddedEvent {
    pub user: Address,
    pub add: u32,
}

/// Notification that a wish was marked fulfilled.
#[derive(Clone, Copy, Debug, PartialEq, Eq, Structural)]
pub struct WishFulfilledEvent {
    pub user: Address,
    pub wish_id: u32,
}

/// A fire-and-forget message owed to the host's event sink, for external
/// indexers to consume.
#[derive(Clone, Copy, Debug, PartialEq, Eq, Structural)]
pub enum Event {
    Added(WishAddedEvent),
    Fulfilled(WishFulfilledEvent),
}

} // verus!
