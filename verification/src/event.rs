//! Event values emitted when a decode run completes.

use vstd::prelude::*;

verus! {

/// An event: a numeric event kind and a payload describing the outcome.
pub struct Event<T> {
    pub event_type: u64,
    pub payload: T,
}

/// A handler consuming one event.
pub trait EventHandler<T> {
    fn handle(&self, event: Event<T>);
}

} // verus!
