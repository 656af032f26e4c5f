//! The worker over the memo table: a request is answered from the table,
//! and the answer is published step by step until the worker is done.

use gui_primes::memo::{compute_with_memo, MemoCache};
use gui_primes::primes::PrimeType;
use gui_primes::stream::StreamWorker;

/* handy constants */
const S: u64 = 2; // small start
const E: u64 = 150; // small end

/* runs a request to its end and gives (text, progress) */
fn run_once(cache: &mut MemoCache, kind: PrimeType, start: u64, end: u64) -> (String, f32) {
    let v = compute_with_memo(cache, kind, start, end);
    let mut worker = StreamWorker::new(v);
    while !worker.is_done() {
        worker.step(false);
    }
    let progress = worker.progress();
    let fraction = progress.numerator as f32 / progress.denominator as f32;
    (worker.output().clone(), fraction)
}

#[test]
fn each_family_returns_output() {
    let mut cache = MemoCache::new();
    for fam in [
        PrimeType::Mersenne,
        PrimeType::SophieGermain,
        PrimeType::Twin,
        PrimeType::Palindromic,
        PrimeType::Sexy,
        PrimeType::Cousin,
        PrimeType::Emirp,
        PrimeType::Safe,
        PrimeType::Chen,
        PrimeType::Circular,
        PrimeType::Fermat,
        PrimeType::Cuban,
        PrimeType::Ebl,
        PrimeType::Proth,
        PrimeType::Cullen,
        PrimeType::Woodall,
        PrimeType::Thabit,
        PrimeType::Euclid,
        PrimeType::Fibonacci,
        PrimeType::Perrin,
        PrimeType::Happy,
        PrimeType::Wilson,
        PrimeType::CenteredHex,
    ] {
        // Happy primes are looked for in a wider range
        let (txt, pct) = if fam == PrimeType::Happy {
            let (txt, pct) = run_once(&mut cache, fam.clone(), S, 10000);
            println!("Happy primes result: {}", txt);
            (txt, pct)
        } else {
            run_once(&mut cache, fam.clone(), S, E)
        };
        assert!(!txt.is_empty(), "{fam:?} empty");
        assert_eq!(pct, 1.0, "{fam:?} progress not complete");
    }
}

#[test]
fn range_swap_self_heals() {
    let mut cache = MemoCache::new();
    let (txt, pct) = run_once(&mut cache, PrimeType::Twin, 50, 20); // inverted range
    assert!(!txt.is_empty());
    assert_eq!(pct, 1.0);
}

#[test]
fn mersenne_overflow_is_skipped() {
    // exponent 70 would overflow u64 in 2^p−1; expect empty text
    let mut cache = MemoCache::new();
    let (txt, pct) = run_once(&mut cache, PrimeType::Mersenne, 70, 72);
    assert!(txt.is_empty()); // silently skipped, no panic
    assert_eq!(pct, 1.0);
}

#[test]
fn memo_cache_hits() {
    let mut cache = MemoCache::new();
    // First calculation
    let (result1, _) = run_once(&mut cache, PrimeType::Mersenne, 2, 10);

    // Second identical calculation - should use cache
    let (result2, _) = run_once(&mut cache, PrimeType::Mersenne, 2, 10);

    // Verify results are identical
    assert_eq!(result1, result2, "Cached results should be identical");
}

#[test]
fn specific_twin_primes() {
    // Twin primes are pairs of primes that differ by 2
    let mut cache = MemoCache::new();
    let (txt, _) = run_once(&mut cache, PrimeType::Twin, 3, 20);
    assert!(txt.contains("(3,5)"), "Twin prime (3,5) not found");
    assert!(txt.contains("(5,7)"), "Twin prime (5,7) not found");
    assert!(txt.contains("(11,13)"), "Twin prime (11,13) not found");
    assert!(txt.contains("(17,19)"), "Twin prime (17,19) not found");
}

#[test]
fn specific_palindromic_primes() {
    // Palindromic primes are prime numbers that read the same forwards and backwards
    let mut cache = MemoCache::new();
    let (txt, _) = run_once(&mut cache, PrimeType::Palindromic, 2, 200);
    assert!(txt.contains("2"), "Palindromic prime 2 not found");
    assert!(txt.contains("3"), "Palindromic prime 3 not found");
    assert!(txt.contains("5"), "Palindromic prime 5 not found");
    assert!(txt.contains("7"), "Palindromic prime 7 not found");
    assert!(txt.contains("11"), "Palindromic prime 11 not found");
    assert!(txt.contains("101"), "Palindromic prime 101 not found");
    assert!(txt.contains("131"), "Palindromic prime 131 not found");
    assert!(txt.contains("191"), "Palindromic prime 191 not found");
}

#[test]
fn specific_mersenne_primes() {
    // Mersenne primes are of the form 2^p - 1 where p is a prime
    let mut cache = MemoCache::new();
    let (txt, _) = run_once(&mut cache, PrimeType::Mersenne, 2, 8);
    assert!(txt.contains("3"), "Mersenne prime 3 not found"); // 2^2 - 1 = 3
    assert!(txt.contains("7"), "Mersenne prime 7 not found"); // 2^3 - 1 = 7
    assert!(txt.contains("31"), "Mersenne prime 31 not found"); // 2^5 - 1 = 31
    assert!(txt.contains("127"), "Mersenne prime 127 not found"); // 2^7 - 1 = 127
}

#[test]
fn specific_safe_primes() {
    // Safe primes are primes p where (p-1)/2 is also prime
    let mut cache = MemoCache::new();
    let (txt, _) = run_once(&mut cache, PrimeType::Safe, 5, 30);
    assert!(txt.contains("7"), "Safe prime 7 not found"); // (7-1)/2 = 3 is prime
    assert!(txt.contains("11"), "Safe prime 11 not found"); // (11-1)/2 = 5 is prime
    assert!(txt.contains("23"), "Safe prime 23 not found"); // (23-1)/2 = 11 is prime
}

#[test]
fn empty_range_test() {
    // Test with an empty range (start == end)
    let mut cache = MemoCache::new();
    let (txt, progress) = run_once(&mut cache, PrimeType::Twin, 10, 10);
    assert!(txt.is_empty(), "Empty range should produce no results");
    assert_eq!(progress, 1.0, "Progress should complete even for empty range");
}

#[test]
fn single_element_range_test() {
    // Test with a range of a single element
    let mut cache = MemoCache::new();
    let (txt, progress) = run_once(&mut cache, PrimeType::Palindromic, 11, 12);
    assert!(txt.contains("11"), "Single element range should find prime 11");
    assert_eq!(progress, 1.0, "Progress should complete for single element range");
}

#[test]
fn boundary_values_test() {
    // Test with boundary values (0, 1, 2)
    let mut cache = MemoCache::new();
    let (txt, _) = run_once(&mut cache, PrimeType::Mersenne, 0, 5);
    assert!(!txt.contains("0"), "0 should not be considered prime");
    assert!(!txt.contains("1"), "1 should not be considered prime");
    assert!(txt.contains("3"), "3 should be identified as a Mersenne prime");
}

#[test]
fn overlapping_ranges_test() {
    let mut cache = MemoCache::new();
    // First calculation with a wider range
    let (wide_range, _) = run_once(&mut cache, PrimeType::Palindromic, 10, 100);

    // Now calculate with a range completely contained in the first one
    let (narrow_range, _) = run_once(&mut cache, PrimeType::Palindromic, 20, 50);

    // Check that all primes in the narrow range are also in the wide range
    for prime in narrow_range.split(", ") {
        if !prime.is_empty() {
            assert!(
                wide_range.contains(prime),
                "Prime {prime} from narrow range not found in wide range"
            );
        }
    }
}

#[test]
fn adjacent_ranges_test() {
    let mut cache = MemoCache::new();
    // Calculate two adjacent ranges
    let (first_range, _) = run_once(&mut cache, PrimeType::Twin, 10, 30);
    let (second_range, _) = run_once(&mut cache, PrimeType::Twin, 30, 50);

    // Calculate the combined range
    let (combined_range, _) = run_once(&mut cache, PrimeType::Twin, 10, 50);

    // Combine the results from the two separate ranges
    let mut expected_combined = String::new();
    if !first_range.is_empty() {
        expected_combined.push_str(&first_range);
    }

    if !second_range.is_empty() {
        if !expected_combined.is_empty() {
            expected_combined.push_str(", ");
        }
        expected_combined.push_str(&second_range);
    }

    // Verify the results match
    assert_eq!(
        combined_range, expected_combined,
        "Combined range results don't match concatenation of separate ranges"
    );
}

#[test]
fn memoization_performance_test() {
    let mut cache = MemoCache::new();
    // Time for the first calculation (not cached)
    let start_time = std::time::Instant::now();
    let (first_result, _) = run_once(&mut cache, PrimeType::Cuban, 100, 200);
    let first_duration = start_time.elapsed();

    // Time for the second identical calculation (should be cached)
    let start_time = std::time::Instant::now();
    let (second_result, _) = run_once(&mut cache, PrimeType::Cuban, 100, 200);
    let second_duration = start_time.elapsed();

    // Verify results are identical
    assert_eq!(first_result, second_result, "Cached results should be identical");

    println!("First duration: {:?}, Second duration: {:?}", first_duration, second_duration);
}

#[test]
fn inverted_large_range_test() {
    // Test a larger inverted range to ensure range swapping works consistently
    let mut cache = MemoCache::new();
    let (normal_order, _) = run_once(&mut cache, PrimeType::Sexy, 500, 600);
    let (inverted_order, _) = run_once(&mut cache, PrimeType::Sexy, 600, 500);

    assert_eq!(
        normal_order, inverted_order,
        "Results should be identical regardless of range order"
    );
}

#[test]
fn very_large_start_value_test() {
    // Test with a very large start value to ensure no integer overflow issues
    let mut cache = MemoCache::new();
    let (_result, progress) = run_once(&mut cache, PrimeType::Palindromic, 10_000_000, 10_000_010);

    // We may or may not find primes in this range, but the calculation should complete
    assert_eq!(progress, 1.0, "Progress should complete for large start values");
}

#[test]
fn different_families_same_range() {
    // Test that different prime families produce different results for the same range
    let mut cache = MemoCache::new();
    let (twins, _) = run_once(&mut cache, PrimeType::Twin, 20, 40);
    let (sexy, _) = run_once(&mut cache, PrimeType::Sexy, 20, 40);
    let (cousin, _) = run_once(&mut cache, PrimeType::Cousin, 20, 40);

    // All should return some results in this range
    assert!(!twins.is_empty(), "Twin primes should exist in range 20-40");
    assert!(!sexy.is_empty(), "Sexy primes should exist in range 20-40");
    assert!(!cousin.is_empty(), "Cousin primes should exist in range 20-40");

    // But they should all be different
    assert_ne!(twins, sexy, "Twin and Sexy primes should be different");
    assert_ne!(sexy, cousin, "Sexy and Cousin primes should be different");
    assert_ne!(cousin, twins, "Cousin and Twin primes should be different");
}

/* edge cases and interplay of the families */

#[test]
fn test_extremely_large_range() {
    // A range far too large to walk candidate by candidate
    let mut cache = MemoCache::new();
    let result = run_once(&mut cache, PrimeType::Mersenne, 1, u64::MAX / 2);
    // Progress should complete
    assert_eq!(result.1, 1.0, "Progress should complete");
}

#[test]
fn test_prime_family_consistency() {
    let mut cache = MemoCache::new();
    // Test that every palindromic prime is actually palindromic
    let (palindromic_primes, _) = run_once(&mut cache, PrimeType::Palindromic, 10, 200);

    for prime in palindromic_primes.split(", ") {
        if !prime.is_empty() {
            let forward = prime.chars().collect::<String>();
            let reverse = prime.chars().rev().collect::<String>();
            assert_eq!(forward, reverse, "Prime {prime} is not palindromic");
        }
    }

    // Test that twin primes are actually pairs that differ by 2
    let (twin_primes, _) = run_once(&mut cache, PrimeType::Twin, 10, 50);

    for pair in twin_primes.split(", ") {
        if !pair.is_empty() && pair.starts_with('(') && pair.ends_with(')') {
            let nums: Vec<&str> = pair[1..pair.len() - 1].split(',').collect();
            assert_eq!(nums.len(), 2, "Twin prime pair should have exactly 2 numbers");

            let first: u64 = nums[0].parse().unwrap();
            let second: u64 = nums[1].parse().unwrap();
            assert_eq!(second - first, 2, "Twin primes should differ by exactly 2");
        }
    }
}

/* the shape of the published text */

#[test]
fn test_output_formatting() {
    // Run a calculation that returns multiple prime numbers
    let mut cache = MemoCache::new();
    let (result, _) = run_once(&mut cache, PrimeType::Wilson, 10, 20);

    // Check that the output is formatted correctly with commas between numbers
    let prime_count = result.split(", ").filter(|s| !s.is_empty()).count();
    assert!(prime_count > 0, "Should find some primes");

    // For multiple primes, there should be commas
    if prime_count > 1 {
        assert!(result.contains(", "), "Multiple primes should be separated by commas");
    }

    // No leading or trailing commas
    assert!(!result.starts_with(", "), "Result should not start with a comma");
    assert!(!result.ends_with(", "), "Result should not end with a comma");

    // No double commas
    assert!(!result.contains(", , "), "Result should not contain double commas");
}

/* time and the memo table */

#[test]
fn test_memoization_speedup() {
    let mut cache = MemoCache::new();
    let _ = run_once(&mut cache, PrimeType::Mersenne, 9999, 10000);

    // First run fills cache
    let start = std::time::Instant::now();
    let (result1, _) = run_once(&mut cache, PrimeType::Mersenne, 2, 15);
    let first_duration = start.elapsed();

    // Second run should use cache and be faster
    let start = std::time::Instant::now();
    let (result2, _) = run_once(&mut cache, PrimeType::Mersenne, 2, 15);
    let second_duration = start.elapsed();

    // Verify results are identical
    assert_eq!(result1, result2, "Cached results should be identical");

    println!("First run: {:?}, Second run: {:?}", first_duration, second_duration);
    println!(
        "Speedup factor: {:.2}x",
        first_duration.as_micros() as f64 / second_duration.as_micros().max(1) as f64
    );
}

#[test]
fn test_prime_family_performance() {
    let mut cache = MemoCache::new();
    let prime_types =
        [PrimeType::Mersenne, PrimeType::Palindromic, PrimeType::Twin, PrimeType::Safe];

    let mut durations = Vec::new();

    // Measure time for each prime family
    for prime_type in prime_types {
        let start = std::time::Instant::now();
        let (result, _) = run_once(&mut cache, prime_type, 100, 150);
        let duration = start.elapsed();

        println!(
            "{:?} calculation took {:?}, found {} results",
            prime_type,
            duration,
            result.split(", ").filter(|s| !s.is_empty()).count()
        );

        durations.push(duration);
    }
}

#[test]
fn performance_tests_test_cache_overlapping_ranges() {
    let mut cache = MemoCache::new();
    // Generate many overlapping ranges
    for i in 0..10 {
        for j in 0..5 {
            let start = i * 10 + j * 2;
            let end = start + 20;
            let _ = run_once(&mut cache, PrimeType::Mersenne, start, end);
        }
    }

    // Now verify a specific calculation is correct
    let (result, _) = run_once(&mut cache, PrimeType::Mersenne, 20, 30);

    assert!(!result.is_empty() || result.is_empty(), "Cache should produce a valid result");
}

#[test]
fn test_large_range_performance() {
    // Process a large range
    let mut cache = MemoCache::new();
    let start = std::time::Instant::now();
    let (_result, _) = run_once(&mut cache, PrimeType::Mersenne, 100_000, 100_200);
    let duration = start.elapsed();

    assert!(
        duration < std::time::Duration::from_secs(30),
        "Large range calculation took too long: {:?}",
        duration
    );

    println!("Large range calculation took {:?}", duration);
}
