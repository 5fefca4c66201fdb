//! Run configuration values.
//!
//! Reading a configuration file and consulting the process
//! environment are I/O and live in the surrounding application; the
//! library holds the configuration data itself.

use vstd::prelude::*;

verus! {

/// The configuration file could not be read or did not parse.
#[derive(Clone, Copy, Debug, PartialEq, Eq, Structural)]
pub struct ConfigRecipeError;

/// The environment a run executes in.
pub enum Environment {
    Local,
}

/// One run's configuration: where to place output and which file to decode.
pub struct Config {
    pub environment: Environment,
    pub basepath: String,
    pub filepath: String,
}

} // verus!
