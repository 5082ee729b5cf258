//! Verified core of the RPL driver: the cartesian product of operation
//! instance factors, with its odometer enumeration, and the decisions the
//! driver and its detectors take between the compiler queries they make.

pub mod mixed_radix;
pub mod cartesian;
pub mod lints;
pub mod patterns;

use vstd::prelude::*;

verus! {

/// The error reported when an input RPL pattern finds a match.
pub struct ErrorFound;

impl ErrorFound {
    /// The diagnostic message of the error.
    pub fn message(&self) -> (msg: &'static str)
        ensures
            msg@ == "An error was found with input RPL pattern(s)"@,
    {
        "An error was found with input RPL pattern(s)"
    }
}

} // verus!
