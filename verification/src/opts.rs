//! The options handed in by the command line, as plain values.
//!
//! The argument-vector grammar itself is parsed by the surrounding program;
//! this type only carries the outcome: the free arguments, and the optional
//! configuration-file and working-directory overrides.

use vstd::prelude::*;

verus! {

/// Free arguments plus the two optional overrides.
pub struct Opts {
    pub args: Vec<String>,
    pub config: Option<String>,
    pub pwd: Option<String>,
}

} // verus!
