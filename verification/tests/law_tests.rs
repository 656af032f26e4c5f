//! What holds of every request, tried on chosen ones.

use gui_primes::memo::{cache_stats, compute_with_memo, MemoCache};
use gui_primes::primes::{calculate_family, PrimeType};
use gui_primes::stream::{Progress, StreamWorker, WorkerAction, WorkerState};

fn strings(items: &[&str]) -> Vec<String> {
    items.iter().map(|s| s.to_string()).collect()
}

#[test]
fn the_order_of_the_ends_does_not_matter() {
    for kind in PrimeType::all() {
        let mut cache = MemoCache::new();
        let forward = compute_with_memo(&mut cache, *kind, 3, 60);
        assert_eq!(cache_stats(&cache), 1);
        let backward = compute_with_memo(&mut cache, *kind, 60, 3);
        assert_eq!(forward, backward, "{kind:?}");
        // one key serves both
        assert_eq!(cache_stats(&cache), 1);
        // asked in the other order first, the answer is the same
        let mut other = MemoCache::new();
        assert_eq!(compute_with_memo(&mut other, *kind, 60, 3), forward, "{kind:?}");
    }
}

#[test]
fn a_range_from_n_to_n_is_empty() {
    for kind in PrimeType::all() {
        let mut cache = MemoCache::new();
        for n in [0, 1, 2, 7, 61, 1000, u64::MAX] {
            assert!(compute_with_memo(&mut cache, *kind, n, n).is_empty(), "{kind:?} at {n}");
            assert!(calculate_family(*kind, n, n).is_empty(), "{kind:?} at {n}");
        }
        // a scan does not normalise: a reversed range is empty
        assert!(calculate_family(*kind, 50, 2).is_empty(), "{kind:?}");
    }
}

#[test]
fn asking_twice_is_asking_once() {
    let mut cache = MemoCache::new();
    assert_eq!(cache_stats(&cache), 0);
    let first = compute_with_memo(&mut cache, PrimeType::Emirp, 10, 120);
    assert_eq!(first, strings(&["13", "17", "31", "37", "71", "73", "79", "97", "107", "113"]));
    assert_eq!(cache_stats(&cache), 1);
    let second = compute_with_memo(&mut cache, PrimeType::Emirp, 10, 120);
    assert_eq!(first, second);
    assert_eq!(cache_stats(&cache), 1);
    // another family, another range: each a key of its own
    compute_with_memo(&mut cache, PrimeType::Safe, 10, 120);
    assert_eq!(cache_stats(&cache), 2);
    compute_with_memo(&mut cache, PrimeType::Emirp, 10, 121);
    assert_eq!(cache_stats(&cache), 3);
    compute_with_memo(&mut cache, PrimeType::Emirp, 11, 120);
    assert_eq!(cache_stats(&cache), 4);
    compute_with_memo(&mut cache, PrimeType::Safe, 120, 10);
    assert_eq!(cache_stats(&cache), 4);
}

#[test]
fn the_table_answers_as_a_fresh_scan_does() {
    let mut cache = MemoCache::new();
    for kind in PrimeType::all() {
        for (a, b) in [(0, 40), (40, 0), (17, 18), (5, 5), (30, 61)] {
            let (low, high) = if a > b { (b, a) } else { (a, b) };
            let fresh = calculate_family(*kind, low, high);
            assert_eq!(compute_with_memo(&mut cache, *kind, a, b), fresh, "{kind:?}");
            assert_eq!(compute_with_memo(&mut cache, *kind, a, b), fresh, "{kind:?}");
        }
    }
    // (0, 40) and (40, 0) share a key
    assert_eq!(cache_stats(&cache), 23 * 4);
}

#[test]
fn overflow_is_contained_in_the_mersenne_family() {
    let mut cache = MemoCache::new();
    assert_eq!(compute_with_memo(&mut cache, PrimeType::Mersenne, 70, 72), strings(&[]));
    assert_eq!(compute_with_memo(&mut cache, PrimeType::Mersenne, 64, 65), strings(&[]));
}

#[test]
fn family_examples() {
    let mut cache = MemoCache::new();
    assert_eq!(
        compute_with_memo(&mut cache, PrimeType::Twin, 3, 20),
        strings(&["(3,5)", "(5,7)", "(11,13)", "(17,19)"])
    );
    assert_eq!(
        compute_with_memo(&mut cache, PrimeType::Mersenne, 2, 8),
        strings(&["3", "7", "31", "127"])
    );
    assert_eq!(
        compute_with_memo(&mut cache, PrimeType::Safe, 5, 30),
        strings(&["5", "7", "11", "23"])
    );
}

#[test]
fn adjacent_scans_add_up() {
    for kind in PrimeType::all() {
        let mut parts = calculate_family(*kind, 0, 37);
        parts.extend(calculate_family(*kind, 37, 38));
        parts.extend(calculate_family(*kind, 38, 61));
        assert_eq!(parts, calculate_family(*kind, 0, 61), "{kind:?}");
    }
}

/* the worker */

fn fraction(progress: Progress) -> f64 {
    progress.numerator as f64 / progress.denominator as f64
}

#[test]
fn an_uncancelled_run_publishes_everything_in_order() {
    let results = calculate_family(PrimeType::Twin, 0, 59);
    let mut worker = StreamWorker::new(results.clone());
    assert_eq!(worker.state(), WorkerState::Running);
    assert_eq!(worker.output(), "");
    assert_eq!(worker.progress(), Progress { numerator: 0, denominator: 1 });

    let mut last = fraction(worker.progress());
    let mut steps = 0;
    let mut published = 0;
    while !worker.is_done() {
        let action = worker.step(false);
        steps += 1;
        let now = fraction(worker.progress());
        assert!(now >= last, "progress fell from {last} to {now}");
        last = now;
        match action {
            WorkerAction::Publish => {
                published += 1;
                assert_eq!(
                    worker.progress(),
                    Progress { numerator: published, denominator: results.len() }
                );
            }
            WorkerAction::Finish => assert!(worker.is_done()),
            other => panic!("unexpected action {other:?}"),
        }
    }
    assert_eq!(published, results.len());
    assert_eq!(steps, results.len() + 1);
    assert_eq!(worker.progress(), Progress { numerator: 1, denominator: 1 });
    assert_eq!(fraction(worker.progress()), 1.0);
    assert_eq!(worker.output(), "(3,5), (5,7), (11,13), (17,19), (29,31), (41,43)");
    let split: Vec<String> = worker.output().split(", ").map(|s| s.to_string()).collect();
    assert_eq!(split, results);
}

#[test]
fn an_empty_result_completes_at_once() {
    let mut worker = StreamWorker::new(Vec::new());
    assert_eq!(worker.step(false), WorkerAction::Finish);
    assert!(worker.is_done());
    assert_eq!(worker.output(), "");
    assert_eq!(worker.progress(), Progress { numerator: 1, denominator: 1 });
    // cancellation is looked at only where a piece is left
    let mut cancelled = StreamWorker::new(Vec::new());
    assert_eq!(cancelled.step(true), WorkerAction::Finish);
    assert_eq!(cancelled.output(), "");
    assert_eq!(cancelled.state(), WorkerState::Done);
}

#[test]
fn a_single_piece_has_no_separator() {
    let mut worker = StreamWorker::new(strings(&["11"]));
    assert_eq!(worker.step(false), WorkerAction::Publish);
    assert_eq!(worker.output(), "11");
    assert_eq!(worker.progress(), Progress { numerator: 1, denominator: 1 });
    assert_eq!(worker.state(), WorkerState::Running);
    assert_eq!(worker.step(false), WorkerAction::Finish);
    assert_eq!(worker.output(), "11");
}

#[test]
fn a_cancellation_stops_the_run() {
    let results = strings(&["2", "3", "5", "7", "11"]);
    let mut worker = StreamWorker::new(results);
    assert_eq!(worker.step(false), WorkerAction::Publish);
    assert_eq!(worker.step(false), WorkerAction::Publish);
    assert_eq!(worker.output(), "2, 3");
    let before = worker.progress();
    assert_eq!(before, Progress { numerator: 2, denominator: 5 });

    assert_eq!(worker.step(true), WorkerAction::Stop);
    assert_eq!(worker.output(), "stopped");
    assert_eq!(worker.state(), WorkerState::Stopping);
    // the progress is left as it was
    assert_eq!(worker.progress(), before);

    // nothing is written after that, whatever is polled
    for cancel in [false, true, false, false] {
        assert_eq!(worker.step(cancel), WorkerAction::Nothing);
        assert_eq!(worker.state(), WorkerState::Done);
        assert_eq!(worker.output(), "stopped");
        assert_eq!(worker.progress(), before);
    }
}

#[test]
fn a_cancellation_before_the_first_piece() {
    let mut worker = StreamWorker::new(strings(&["(3,5)", "(5,7)"]));
    assert_eq!(worker.step(true), WorkerAction::Stop);
    assert_eq!(worker.output(), "stopped");
    assert_eq!(worker.progress(), Progress { numerator: 0, denominator: 1 });
    assert_eq!(worker.step(false), WorkerAction::Nothing);
    assert!(worker.is_done());
}

#[test]
fn a_cancellation_after_the_last_piece_comes_too_late() {
    let mut worker = StreamWorker::new(strings(&["3", "7"]));
    worker.step(false);
    worker.step(false);
    assert_eq!(worker.step(true), WorkerAction::Finish);
    assert_eq!(worker.output(), "3, 7");
    assert_eq!(worker.progress(), Progress { numerator: 1, denominator: 1 });
    assert_eq!(worker.step(true), WorkerAction::Nothing);
    assert_eq!(worker.output(), "3, 7");
}

#[test]
fn a_worker_answers_a_stop_signal() {
    let mut cache = MemoCache::new();
    let results = compute_with_memo(&mut cache, PrimeType::Proth, 1000, 10000);
    let mut worker = StreamWorker::new(results);

    // Let it run for a short time
    for _ in 0..100 {
        worker.step(false);
    }

    // Set the stop signal, and let the worker see it
    let mut seen = false;
    for _ in 0..50 {
        worker.step(true);
        if worker.output().contains("stopped") {
            seen = true;
            break;
        }
    }

    // Verify that the operation was stopped
    assert!(seen, "Worker did not respond to stop signal");
    assert!(worker.output().contains("stopped"), "Worker did not respond to stop signal");
}

#[test]
fn progress_rises_step_by_step() {
    let mut cache = MemoCache::new();
    let results = compute_with_memo(&mut cache, PrimeType::Wilson, 10, 50);
    let mut worker = StreamWorker::new(results);

    let initial_progress = fraction(worker.progress());
    worker.step(false);
    let later_progress = fraction(worker.progress());
    assert!(
        later_progress > initial_progress || later_progress == 1.0,
        "Progress should increase over time or be complete"
    );

    for _ in 0..50 {
        if fraction(worker.progress()) >= 1.0 && worker.is_done() {
            break;
        }
        worker.step(false);
    }

    // Verify that the progress reached 100%
    assert_eq!(fraction(worker.progress()), 1.0, "Progress should reach 100%");
}

#[test]
fn every_update_asks_for_a_redraw() {
    let mut cache = MemoCache::new();
    let results = compute_with_memo(&mut cache, PrimeType::Wilson, 10, 30);
    let mut worker = StreamWorker::new(results);

    // a piece and the completion each ask the host to redraw
    let mut updates = 0;
    for _ in 0..20 {
        match worker.step(false) {
            WorkerAction::Publish | WorkerAction::Finish => updates += 1,
            _ => {}
        }
    }

    // 11, 13, 17, 19, 23, 29 and the completion
    assert!(updates > 0, "There should be at least one progress update");
    assert_eq!(updates, 7);
}
