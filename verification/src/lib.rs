//! Prime families over a numeric range: membership tests for twenty-three
//! families of primes, a range scan that lists the members in ascending
//! order, a memo table keyed by family and range, and the step function of
//! a cancellable worker that publishes a result piece by piece.
//!
//! Every executable function carries a contract stated over the
//! mathematical definitions in this crate, and Verus proves the code
//! against it.

pub mod decimal;
pub mod forms;
pub mod happy;
pub mod memo;
pub mod mersenne;
pub mod primality;
pub mod primes;
pub mod primes_error;
pub mod sequences;
pub mod split;
pub mod stream;
pub mod util;
