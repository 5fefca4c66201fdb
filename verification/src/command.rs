//! Command values that trigger one decode run.

use vstd::prelude::*;

use crate::event::Event;

verus! {

/// A command received from the intake queue: a numeric command kind
/// and a payload describing the work.
pub struct Command<T> {
    pub command_type: u64,
    pub payload: T,
}

/// A handler that may turn a command into an event.
pub trait CommandHandler<T, R> {
    fn handle(&self, command: &Command<T>) -> Option<Event<R>>;
}

} // verus!
