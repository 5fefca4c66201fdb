//! Recipe decoding: the decoders and the values they exchange.

pub mod carne_asade;
pub mod null;

use vstd::prelude::*;

verus! {

/// The outcome of a successful decode: where the final document went.
pub struct RecipeParsed {
    pub output: String,
}

/// The payload of a decode command: the source file, the output base
/// directory, and the run's unique identifier (the scratch directory
/// name).
pub struct ParseRecipe {
    pub basepath: String,
    pub filepath: String,
    pub identifier: String,
}

} // verus!
