//! The clipboard as the library knows it, and the edges of a scan.

use gui_primes::memo::{compute_with_memo, MemoCache};
use gui_primes::primes::{PrimeError, PrimeType};
use gui_primes::util::{clipboard_failure, copy_outcome, copy_to_clipboard, ClipboardStep};

#[test]
fn test_clipboard_function() {
    // The library has no platform clipboard: the copy must fail, and must not panic
    let result = copy_to_clipboard("Test data");

    println!("Clipboard feature disabled, result: {:?}", result);
    assert!(result.is_err(), "Result should be an error when clipboard feature is disabled");
    assert!(
        matches!(result, Err(PrimeError::Fatal(_))),
        "Error should be PrimeError::Fatal when clipboard feature is disabled"
    );
}

#[test]
fn clipboard_errors_name_their_reason() {
    assert!(matches!(
        copy_to_clipboard("2, 3, 5"),
        Err(PrimeError::Fatal("clipboard feature disabled"))
    ));
    assert!(matches!(clipboard_failure(ClipboardStep::Open), PrimeError::Fatal("clipboard init")));
    // a clipboard that was opened and did not take the text failed a call
    assert!(matches!(
        clipboard_failure(ClipboardStep::Write),
        PrimeError::ClipboardError(reason) if reason == "clipboard set"
    ));
}

#[test]
fn the_outcome_of_a_copy_follows_the_step_that_failed() {
    assert!(matches!(copy_outcome(None), Ok(())));
    assert!(matches!(
        copy_outcome(Some(ClipboardStep::Open)),
        Err(PrimeError::Fatal("clipboard init"))
    ));
    assert!(matches!(
        copy_outcome(Some(ClipboardStep::Write)),
        Err(PrimeError::ClipboardError(reason)) if reason == "clipboard set"
    ));
}

#[test]
fn every_error_variant_can_be_told_apart() {
    let errors = [
        PrimeError::Overflow("square"),
        PrimeError::Fatal("clipboard init"),
        PrimeError::ExecutionError(String::from("scan")),
        PrimeError::ClipboardError(String::from("busy")),
    ];
    assert!(matches!(errors[0], PrimeError::Overflow("square")));
    assert!(matches!(errors[1], PrimeError::Fatal("clipboard init")));
    assert!(matches!(&errors[2], PrimeError::ExecutionError(s) if s == "scan"));
    assert!(matches!(&errors[3], PrimeError::ClipboardError(s) if s == "busy"));
    assert_eq!(format!("{:?}", errors[0]), "Overflow(\"square\")");
}

// Test that prime calculations consistently handle edge cases
#[test]
fn test_prime_edge_cases() {
    let mut cache = MemoCache::new();
    // Test with range [0, 2) which should only include primes >= 2
    let result = compute_with_memo(&mut cache, PrimeType::Wilson, 0, 2);
    assert_eq!(result.len(), 0, "No primes < 2");

    // Test with range [2, 3) which should include only 2
    let result = compute_with_memo(&mut cache, PrimeType::Wilson, 2, 3);
    assert_eq!(result.len(), 1, "Should find exactly one prime");
    assert_eq!(result[0], "2", "First prime should be 2");
}

// Test that start == end returns empty results for all prime types
#[test]
fn test_empty_range_all_types() {
    let mut cache = MemoCache::new();
    // List of prime types to test
    let prime_types = [
        PrimeType::Wilson,
        PrimeType::Mersenne,
        PrimeType::Twin,
        PrimeType::Palindromic,
        PrimeType::Safe,
    ];

    // Test each type with an empty range
    for prime_type in prime_types {
        let result = compute_with_memo(&mut cache, prime_type, 10, 10);
        assert!(result.is_empty(), "Empty range should return empty results for {:?}", prime_type);
    }
}

// Test that very large ranges don't cause errors
#[test]
fn test_large_range_handling() {
    let mut cache = MemoCache::new();
    let result = compute_with_memo(&mut cache, PrimeType::Wilson, 1_000_000, 1_000_010);

    assert!(
        result.is_empty() || !result.is_empty(),
        "Large range calculation should complete without errors"
    );
}
