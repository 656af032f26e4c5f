//! The clipboard, as far as the library knows it.

use vstd::prelude::*;
use crate::primes_error::PrimeError;

verus! {

/// A step of a copy to the platform clipboard.
#[derive(Clone, Copy, Debug, PartialEq, Eq, Structural)]
pub enum ClipboardStep {
    /// Opening the clipboard.
    Open,
    /// Handing the text over.
    Write,
}

/// The reason given when a copy is asked of the library itself.
pub open spec fn disabled_reason() -> Seq<char> {
    "clipboard feature disabled"@
}

/// The reason given for a failure at a step of a copy.
pub open spec fn failure_reason(step: ClipboardStep) -> Seq<char> {
    match step {
        ClipboardStep::Open => "clipboard init"@,
        ClipboardStep::Write => "clipboard set"@,
    }
}

/// The error is that of a copy that failed at the given step. A
/// clipboard that cannot be opened is not there for this run, and the
/// error is [`PrimeError::Fatal`]. A clipboard that was opened and did
/// not take the text has failed a call, and the error is
/// [`PrimeError::ClipboardError`].
pub open spec fn is_failure_at(error: PrimeError, step: ClipboardStep) -> bool {
    match step {
        ClipboardStep::Open => error matches PrimeError::Fatal(reason) && reason@
            == failure_reason(step),
        ClipboardStep::Write => error matches PrimeError::ClipboardError(reason) && reason@
            == failure_reason(step),
    }
}

/// The library holds no platform clipboard, so a copy asked of it always
/// fails, with [`PrimeError::Fatal`]. A host that has a clipboard makes
/// the two platform calls by itself and hands their outcome to
/// [`copy_outcome`].
pub fn copy_to_clipboard(text: &str) -> (outcome: Result<(), PrimeError>)
    ensures
        outcome matches Err(PrimeError::Fatal(reason)) && reason@ == disabled_reason(),
{
    Err(PrimeError::Fatal("clipboard feature disabled"))
}

/// The error of a copy that failed at the given step: fatal where the
/// clipboard could not be opened, a clipboard error where the opened
/// clipboard did not take the text.
pub fn clipboard_failure(step: ClipboardStep) -> (error: PrimeError)
    ensures
        is_failure_at(error, step),
{
    match step {
        ClipboardStep::Open => PrimeError::Fatal("clipboard init"),
        ClipboardStep::Write => PrimeError::ClipboardError(String::from_str("clipboard set")),
    }
}

/// The result of a copy, given the step at which the platform failed, if
/// it failed: success where no step failed, and else the error of the
/// step.
pub fn copy_outcome(failed_at: Option<ClipboardStep>) -> (outcome: Result<(), PrimeError>)
    ensures
        match failed_at {
            Some(step) => outcome matches Err(error) && is_failure_at(error, step),
            None => outcome is Ok,
        },
{
    match failed_at {
        Some(step) => Err(clipboard_failure(step)),
        None => Ok(()),
    }
}

} // verus!
