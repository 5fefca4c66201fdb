//! Message intake contract.
//!
//! The queue itself (its connection, its wire format) is application
//! plumbing; the library holds only the error value its contract names.

use vstd::prelude::*;

verus! {

/// Receiving from the intake queue failed.
#[derive(Clone, Copy, Debug, PartialEq, Eq, Structural)]
pub struct ReceiveError;

} // verus!
