//! The worker that publishes a result piece by piece. The worker is a
//! state machine: each step takes what was polled of the cancellation
//! signal, changes the published text and progress, and says what the
//! host has to do. The host owns the thread, the signal and the render
//! surface; the decisions are made here.

use vstd::prelude::*;
use crate::primes::texts;

verus! {

/// Where a worker stands.
#[derive(Clone, Copy, Debug, PartialEq, Eq, Structural)]
pub enum WorkerState {
    /// Pieces are being published.
    Running,
    /// A cancellation was seen and the stop marker is written.
    Stopping,
    /// Nothing more will be written.
    Done,
}

/// What the host has to do after a step.
#[derive(Clone, Copy, Debug, PartialEq, Eq, Structural)]
pub enum WorkerAction {
    /// A piece was appended: show text and progress, and redraw.
    Publish,
    /// The stop marker was written: show the text, and redraw.
    Stop,
    /// The run is complete: show the progress, and redraw.
    Finish,
    /// Nothing changed.
    Nothing,
}

/// A fraction between zero and one.
#[derive(Clone, Copy, Debug, PartialEq, Eq, Structural)]
pub struct Progress {
    /// The pieces published.
    pub numerator: usize,
    /// The pieces in all, at least one.
    pub denominator: usize,
}

/// What a worker is, seen from outside.
pub struct WorkerModel {
    /// The pieces to publish, in order.
    pub results: Seq<Seq<char>>,
    /// How many of them are published.
    pub emitted: nat,
    /// The published text.
    pub output: Seq<char>,
    /// The published progress.
    pub progress: Progress,
    /// Where the worker stands.
    pub state: WorkerState,
}

/// What stands between two pieces of the published text.
pub open spec fn separator() -> Seq<char> {
    seq![',', ' ']
}

/// The text that marks a stopped run.
pub open spec fn stop_marker() -> Seq<char> {
    seq!['s', 't', 'o', 'p', 'p', 'e', 'd']
}

/// The text `so_far` with one more piece: the piece alone where nothing
/// is there yet, else after a separator.
pub open spec fn appended(so_far: Seq<char>, piece: Seq<char>) -> Seq<char> {
    if so_far.len() == 0 {
        piece
    } else {
        so_far + separator() + piece
    }
}

/// The pieces in order, with a separator between each two.
pub open spec fn joined(pieces: Seq<Seq<char>>) -> Seq<char>
    decreases pieces.len(),
{
    if pieces.len() == 0 {
        Seq::empty()
    } else {
        appended(joined(pieces.drop_last()), pieces.last())
    }
}

/// The fraction zero.
pub open spec fn no_progress() -> Progress {
    Progress { numerator: 0, denominator: 1 }
}

/// The fraction one.
pub open spec fn full_progress() -> Progress {
    Progress { numerator: 1, denominator: 1 }
}

/// The fraction `a` is at most the fraction `b`.
pub open spec fn progress_le(a: Progress, b: Progress) -> bool {
    a.numerator * b.denominator <= b.numerator * a.denominator
}

/// The fraction is exactly one.
pub open spec fn progress_is_full(a: Progress) -> bool {
    a.numerator == a.denominator && a.denominator >= 1
}

/// A worker that has published nothing yet.
pub open spec fn started(results: Seq<Seq<char>>) -> WorkerModel {
    WorkerModel {
        results,
        emitted: 0,
        output: Seq::empty(),
        progress: no_progress(),
        state: WorkerState::Running,
    }
}

/// What a running worker has published matches how far it has come.
pub open spec fn consistent(w: WorkerModel) -> bool {
    &&& w.emitted <= w.results.len() <= usize::MAX
    &&& w.progress.denominator >= 1
    &&& w.progress.numerator <= w.progress.denominator
    &&& w.state == WorkerState::Running ==> {
        &&& w.output == joined(w.results.subrange(0, w.emitted as int))
        &&& if w.emitted == 0 {
            w.progress == no_progress()
        } else {
            w.progress == Progress {
                numerator: w.emitted as usize,
                denominator: w.results.len() as usize,
            }
        }
    }
    &&& w.state == WorkerState::Stopping ==> w.output == stop_marker()
}

/// The worker after one step. A running worker with a piece left writes
/// the stop marker if cancellation was seen, and else publishes the
/// piece; with no piece left it completes, whatever was seen. A stopping
/// worker is done after the step, and a worker that is done stays as it
/// is.
pub open spec fn step_model(w: WorkerModel, cancel: bool) -> WorkerModel {
    match w.state {
        WorkerState::Running => {
            if w.emitted < w.results.len() {
                if cancel {
                    WorkerModel { output: stop_marker(), state: WorkerState::Stopping, ..w }
                } else {
                    WorkerModel {
                        emitted: w.emitted + 1,
                        output: appended(w.output, w.results[w.emitted as int]),
                        progress: Progress {
                            numerator: (w.emitted + 1) as usize,
                            denominator: w.results.len() as usize,
                        },
                        ..w
                    }
                }
            } else {
                WorkerModel { progress: full_progress(), state: WorkerState::Done, ..w }
            }
        },
        WorkerState::Stopping => WorkerModel { state: WorkerState::Done, ..w },
        WorkerState::Done => w,
    }
}

/// What the host has to do after the step.
pub open spec fn action_of(w: WorkerModel, cancel: bool) -> WorkerAction {
    match w.state {
        WorkerState::Running => {
            if w.emitted < w.results.len() {
                if cancel {
                    WorkerAction::Stop
                } else {
                    WorkerAction::Publish
                }
            } else {
                WorkerAction::Finish
            }
        },
        _ => WorkerAction::Nothing,
    }
}

/// The worker after a run of steps, one for each polled signal.
pub open spec fn run_model(w: WorkerModel, signals: Seq<bool>) -> WorkerModel
    decreases signals.len(),
{
    if signals.len() == 0 {
        w
    } else {
        step_model(run_model(w, signals.drop_last()), signals.last())
    }
}

/// `n` polls that saw no cancellation.
pub open spec fn quiet(n: nat) -> Seq<bool> {
    Seq::new(n, |i: int| false)
}

/// A step keeps a worker consistent.
pub proof fn lemma_step_consistent(w: WorkerModel, cancel: bool)
    requires
        consistent(w),
    ensures
        consistent(step_model(w, cancel)),
{
    if w.state == WorkerState::Running && w.emitted < w.results.len() && !cancel {
        let next = step_model(w, cancel);
        let shown = w.results.subrange(0, next.emitted as int);
        assert(shown.drop_last() =~= w.results.subrange(0, w.emitted as int));
        assert(shown.last() == w.results[w.emitted as int]);
    }
}

/// A run of steps keeps a worker consistent.
pub proof fn lemma_run_consistent(w: WorkerModel, signals: Seq<bool>)
    requires
        consistent(w),
    ensures
        consistent(run_model(w, signals)),
    decreases signals.len(),
{
    if signals.len() > 0 {
        lemma_run_consistent(w, signals.drop_last());
        lemma_step_consistent(run_model(w, signals.drop_last()), signals.last());
    }
}

/// Progress never falls: after a step it is at least what it was.
pub proof fn lemma_progress_monotonic(w: WorkerModel, cancel: bool)
    requires
        consistent(w),
    ensures
        progress_le(w.progress, step_model(w, cancel).progress),
{
    let next = step_model(w, cancel);
    let a = w.progress.numerator as int;
    let b = w.progress.denominator as int;
    let c = next.progress.numerator as int;
    let d = next.progress.denominator as int;
    if w.state == WorkerState::Running && w.emitted < w.results.len() && !cancel {
        if w.emitted == 0 {
            assert(a * d <= c * b) by (nonlinear_arith)
                requires
                    a == 0,
                    c >= 0,
                    b >= 0,
            ;
        } else {
            assert(a * d <= c * b) by (nonlinear_arith)
                requires
                    c == a + 1,
                    b == d,
                    b >= 0,
            ;
        }
    } else if w.state == WorkerState::Running && w.emitted >= w.results.len() {
        assert(a * d <= c * b) by (nonlinear_arith)
            requires
                c == 1,
                d == 1,
                a <= b,
        ;
    } else {
        assert(a * d <= c * b) by (nonlinear_arith)
            requires
                a == c,
                b == d,
        ;
    }
}

/// While no cancellation is seen, a worker publishes one piece per step.
proof fn lemma_quiet_prefix(results: Seq<Seq<char>>, k: nat)
    requires
        k <= results.len() <= usize::MAX,
    ensures
        run_model(started(results), quiet(k)).state == WorkerState::Running,
        run_model(started(results), quiet(k)).emitted == k,
        run_model(started(results), quiet(k)).results == results,
        consistent(run_model(started(results), quiet(k))),
    decreases k,
{
    let w = started(results);
    if k == 0 {
        assert(results.subrange(0, 0) =~= Seq::<Seq<char>>::empty());
    } else {
        lemma_quiet_prefix(results, (k - 1) as nat);
        assert(quiet(k).drop_last() =~= quiet((k - 1) as nat));
        lemma_step_consistent(run_model(w, quiet((k - 1) as nat)), false);
    }
}

/// A run that is never cancelled completes: after one step for each piece
/// and one more, the worker is done, the progress is exactly one, and the
/// published text is the pieces in their order with a separator between
/// each two.
pub proof fn lemma_quiet_run_completes(results: Seq<Seq<char>>)
    requires
        results.len() <= usize::MAX,
    ensures
        run_model(started(results), quiet(results.len() + 1)).state == WorkerState::Done,
        run_model(started(results), quiet(results.len() + 1)).output == joined(results),
        run_model(started(results), quiet(results.len() + 1)).progress == full_progress(),
        progress_is_full(run_model(started(results), quiet(results.len() + 1)).progress),
{
    let n = results.len();
    lemma_quiet_prefix(results, n);
    assert(quiet(n + 1).drop_last() =~= quiet(n));
    assert(results.subrange(0, n as int) =~= results);
}

/// A worker that is done stays as it is, whatever is polled.
pub proof fn lemma_done_is_final(w: WorkerModel, signals: Seq<bool>)
    requires
        w.state == WorkerState::Done,
    ensures
        run_model(w, signals) == w,
    decreases signals.len(),
{
    if signals.len() > 0 {
        lemma_done_is_final(w, signals.drop_last());
    }
}

/// A cancellation that a running worker sees while a piece is left stops
/// it: the published text becomes the stop marker, and no later step
/// changes the text, the progress or the number of pieces published.
pub proof fn lemma_cancel_stops(w: WorkerModel, later: Seq<bool>)
    requires
        w.state == WorkerState::Running,
        w.emitted < w.results.len(),
    ensures
        step_model(w, true).output == stop_marker(),
        run_model(step_model(w, true), later).output == stop_marker(),
        run_model(step_model(w, true), later).emitted == w.emitted,
        run_model(step_model(w, true), later).progress == w.progress,
        later.len() >= 1 ==> run_model(step_model(w, true), later).state == WorkerState::Done,
    decreases later.len(),
{
    if later.len() > 0 {
        lemma_cancel_stops(w, later.drop_last());
        if later.len() == 1 {
            assert(later.drop_last().len() == 0);
        }
    }
}

/// A worker over a result.
pub struct StreamWorker {
    results: Vec<String>,
    emitted: usize,
    output: String,
    progress: Progress,
    state: WorkerState,
}

impl View for StreamWorker {
    type V = WorkerModel;

    /// The worker seen from outside.
    closed spec fn view(&self) -> WorkerModel {
        WorkerModel {
            results: texts(self.results@),
            emitted: self.emitted as nat,
            output: self.output@,
            progress: self.progress,
            state: self.state,
        }
    }
}

impl StreamWorker {
    #[verifier::type_invariant]
    spec fn well_formed(self) -> bool {
        consistent(self@)
    }

    /// A worker that will publish `results`, and has published nothing.
    pub fn new(results: Vec<String>) -> (worker: StreamWorker)
        ensures
            worker@ == started(texts(results@)),
    {
        let output = String::new();
        proof {
            assert(texts(results@).len() == results.len());
            assert(texts(results@).subrange(0, 0) =~= Seq::<Seq<char>>::empty());
        }
        StreamWorker {
            results,
            emitted: 0,
            output,
            progress: Progress { numerator: 0, denominator: 1 },
            state: WorkerState::Running,
        }
    }

    /// Makes one step, given what was polled of the cancellation signal,
    /// and says what the host has to do.
    pub fn step(&mut self, cancel: bool) -> (action: WorkerAction)
        ensures
            final(self)@ == step_model(old(self)@, cancel),
            action == action_of(old(self)@, cancel),
            consistent(old(self)@),
            consistent(final(self)@),
    {
        proof {
            use_type_invariant(&*self);
            lemma_step_consistent(self@, cancel);
        }
        match self.state {
            WorkerState::Running => {
                if self.emitted < self.results.len() {
                    if cancel {
                        proof {
                            reveal_strlit("stopped");
                        }
                        let marker = String::from_str("stopped");
                        proof {
                            assert(marker@ =~= stop_marker());
                        }
                        let mut taken = StreamWorker::new(Vec::new());
                        core::mem::swap(self, &mut taken);
                        *self = StreamWorker {
                            results: taken.results,
                            emitted: taken.emitted,
                            output: marker,
                            progress: taken.progress,
                            state: WorkerState::Stopping,
                        };
                        WorkerAction::Stop
                    } else {
                        let mut taken = StreamWorker::new(Vec::new());
                        core::mem::swap(self, &mut taken);
                        let ghost before = taken@;
                        let mut output = taken.output;
                        let results = taken.results;
                        let emitted = taken.emitted;
                        proof {
                            reveal_strlit(", ");
                            assert(", "@ =~= separator());
                        }
                        if !output.as_str().is_empty() {
                            output.append(", ");
                        }
                        output.append(results[emitted].as_str());
                        proof {
                            assert(output@ =~= appended(
                                before.output,
                                before.results[emitted as int],
                            ));
                        }
                        *self = StreamWorker {
                            emitted: emitted + 1,
                            output,
                            progress: Progress {
                                numerator: emitted + 1,
                                denominator: results.len(),
                            },
                            results,
                            state: WorkerState::Running,
                        };
                        WorkerAction::Publish
                    }
                } else {
                    let mut taken = StreamWorker::new(Vec::new());
                    core::mem::swap(self, &mut taken);
                    *self = StreamWorker {
                        results: taken.results,
                        emitted: taken.emitted,
                        output: taken.output,
                        progress: Progress { numerator: 1, denominator: 1 },
                        state: WorkerState::Done,
                    };
                    WorkerAction::Finish
                }
            },
            WorkerState::Stopping => {
                let mut taken = StreamWorker::new(Vec::new());
                core::mem::swap(self, &mut taken);
                *self = StreamWorker {
                    results: taken.results,
                    emitted: taken.emitted,
                    output: taken.output,
                    progress: taken.progress,
                    state: WorkerState::Done,
                };
                WorkerAction::Nothing
            },
            WorkerState::Done => WorkerAction::Nothing,
        }
    }

    /// The published text.
    pub fn output(&self) -> (text: &String)
        ensures
            text@ == self@.output,
    {
        &self.output
    }

    /// The published progress.
    pub fn progress(&self) -> (progress: Progress)
        ensures
            progress == self@.progress,
            progress.denominator >= 1,
            progress.numerator <= progress.denominator,
    {
        proof {
            use_type_invariant(self);
        }
        self.progress
    }

    /// Where the worker stands.
    pub fn state(&self) -> (state: WorkerState)
        ensures
            state == self@.state,
    {
        self.state
    }

    /// Whether the worker is done.
    pub fn is_done(&self) -> (done: bool)
        ensures
            done == (self@.state == WorkerState::Done),
    {
        self.state == WorkerState::Done
    }
}

} // verus!
