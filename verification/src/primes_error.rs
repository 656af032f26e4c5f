//! The errors of the library.

use vstd::prelude::*;

verus! {

/// What can go wrong around the prime families. A candidate whose
/// arithmetic would leave the 64-bit range is no error: it is not a
/// member, and the scan goes on.
#[derive(Debug)]
pub enum PrimeError {
    /// An operation would leave the numeric range.
    Overflow(&'static str),
    /// The platform failed in a way that cannot be mended.
    Fatal(&'static str),
    /// A computation failed.
    ExecutionError(String),
    /// A call to the platform clipboard failed.
    ClipboardError(String),
}

} // verus!
