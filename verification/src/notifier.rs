//! Notification sink reporting success or failure of a decode run.

use vstd::prelude::*;

verus! {

/// A sink for user-visible completion messages. Implementations are
/// supplied by the surrounding application.
pub trait Notifier {
    fn success(&self, msg: String);

    fn failure(&self, msg: String);
}

} // verus!
