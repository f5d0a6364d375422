//! The slot through which several workers share one problem: the current
//! problem, its generation, and the callback that decides whether a solution
//! is taken. Every decision of the protocol is a method here; whoever runs the
//! workers holds the slot under a lock and calls them.

use crate::board::Sudoku;
use vstd::prelude::*;

verus! {

/// The generation that tells every worker to stop for good.
pub const SHUTDOWN: i32 = -1;

/// What the protocol keeps of the slot: which submission is current, and
/// whether it still waits for a solution.
pub struct SlotState {
    pub generation: i32,
    pub pending: bool,
}

/// What can happen to the slot.
pub enum SlotEvent {
    /// A new problem is submitted.
    Submit,
    /// A worker that started on `generation` reports a solution; `accept` is
    /// what the callback says of it, if it is asked.
    Report { generation: i32, accept: bool },
    /// The workers are told to stop.
    ShutDown,
}

/// What a worker that looks at the slot does next.
pub enum WorkerStep {
    /// Stop for good: the slot is shut down.
    Exit,
    /// Nothing to do: yield the processor, then look again.
    YieldThenRetry,
    /// Nothing to do: yield the processor, then return to the caller.
    YieldThenReturn,
    /// Search this problem, and report under this generation.
    Solve { generation: i32, problem: Sudoku },
}

/// What a worker that reports a solution hears back.
#[derive(Clone, Copy, Debug, PartialEq, Eq, Structural)]
pub enum Verdict {
    /// The solution was taken; the generation is solved.
    Accepted,
    /// The solution was turned down; the search goes on.
    KeepSearching,
    /// The worker's generation is no longer current, or is solved already:
    /// the search stops.
    Abort,
}

/// Whether a report is taken: the slot still waits, the report is for the
/// current generation, and the callback accepts.
pub open spec fn is_acceptance(s: SlotState, e: SlotEvent) -> bool {
    e matches SlotEvent::Report { generation, accept } && s.pending && s.generation == generation
        && accept
}

/// Whether the event may happen in this state: a submission needs a slot
/// that is not shut down, and room for one more generation.
pub open spec fn is_allowed(s: SlotState, e: SlotEvent) -> bool {
    e is Submit ==> 0 <= s.generation < i32::MAX
}

/// The state after an event.
pub open spec fn step(s: SlotState, e: SlotEvent) -> SlotState {
    match e {
        SlotEvent::Submit => SlotState { generation: (s.generation + 1) as i32, pending: true },
        SlotEvent::Report { generation, accept } => if is_acceptance(s, e) {
            SlotState { generation: s.generation, pending: false }
        } else {
            s
        },
        SlotEvent::ShutDown => SlotState { generation: SHUTDOWN, pending: s.pending },
    }
}

/// What a reporting worker hears back.
pub open spec fn verdict_of(s: SlotState, generation: i32, accept: bool) -> Verdict {
    if s.pending && s.generation == generation {
        if accept {
            Verdict::Accepted
        } else {
            Verdict::KeepSearching
        }
    } else {
        Verdict::Abort
    }
}

/// Whether every event of the sequence may happen when its turn comes.
pub open spec fn all_allowed(s: SlotState, events: Seq<SlotEvent>) -> bool
    decreases events.len(),
{
    events.len() == 0 || (is_allowed(s, events[0]) && all_allowed(
        step(s, events[0]),
        events.drop_first(),
    ))
}

/// The state after a sequence of events.
pub open spec fn run(s: SlotState, events: Seq<SlotEvent>) -> SlotState
    decreases events.len(),
{
    if events.len() == 0 {
        s
    } else {
        run(step(s, events[0]), events.drop_first())
    }
}

/// How many reports for `generation` are taken in a sequence of events.
pub open spec fn acceptances(s: SlotState, events: Seq<SlotEvent>, generation: i32) -> nat
    decreases events.len(),
{
    if events.len() == 0 {
        0
    } else {
        let here: nat = if is_acceptance(s, events[0]) && s.generation == generation {
            1
        } else {
            0
        };
        here + acceptances(step(s, events[0]), events.drop_first(), generation)
    }
}

/// The slot as it is made: generation 0, nothing pending.
pub open spec fn fresh_slot() -> SlotState {
    SlotState { generation: 0, pending: false }
}

/// How many reports for `generation` can still be taken from this state on:
/// one while the slot waits for a solution of that generation or can still
/// come to, none otherwise.
pub open spec fn chances(s: SlotState, generation: i32) -> nat {
    if s.generation == generation {
        if s.pending {
            1
        } else {
            0
        }
    } else if generation == SHUTDOWN {
        if s.generation >= 0 || s.pending {
            1
        } else {
            0
        }
    } else if 0 <= s.generation < generation {
        1
    } else {
        0
    }
}

/// An event that takes a report uses up the one chance of its generation, and
/// no event gives a generation another.
pub proof fn lemma_chances_step(s: SlotState, e: SlotEvent, generation: i32)
    requires
        is_allowed(s, e),
    ensures
        chances(step(s, e), generation) + (if is_acceptance(s, e) && s.generation == generation {
            1nat
        } else {
            0nat
        }) <= chances(s, generation),
{
}

/// Of all the reports that come in for one generation, whichever workers send
/// them and whatever else happens in between, at most one is taken.
pub proof fn lemma_at_most_one_acceptance(s: SlotState, events: Seq<SlotEvent>, generation: i32)
    requires
        all_allowed(s, events),
    ensures
        acceptances(s, events, generation) <= chances(s, generation) <= 1,
    decreases events.len(),
{
    if events.len() > 0 {
        lemma_chances_step(s, events[0], generation);
        lemma_at_most_one_acceptance(step(s, events[0]), events.drop_first(), generation);
    }
}

/// Once a generation is solved or superseded it stays so: whatever happens
/// next, a worker that reports for it is told to abort.
pub proof fn lemma_solved_stays_solved(s: SlotState, events: Seq<SlotEvent>, generation: i32)
    requires
        all_allowed(s, events),
        chances(s, generation) == 0,
    ensures
        chances(run(s, events), generation) == 0,
        forall|accept: bool|
            #[trigger] verdict_of(run(s, events), generation, accept) == Verdict::Abort,
    decreases events.len(),
{
    if events.len() > 0 {
        lemma_chances_step(s, events[0], generation);
        lemma_solved_stays_solved(step(s, events[0]), events.drop_first(), generation);
    }
}

/// The slot that the workers share.
pub struct SharedContext<F> {
    current_problem_index: i32,
    current_problem: Sudoku,
    solution_callback: Option<F>,
}

impl<F: Fn(&Sudoku) -> bool> View for SharedContext<F> {
    type V = SlotState;

    /// The generation, and whether a callback waits for a solution.
    open spec fn view(&self) -> SlotState {
        SlotState { generation: self.index(), pending: self.callback() is Some }
    }
}

impl<F: Fn(&Sudoku) -> bool> SharedContext<F> {
    /// The number of the current submission.
    pub closed spec fn index(&self) -> i32 {
        self.current_problem_index
    }

    /// The problem that the slot holds.
    pub closed spec fn problem(&self) -> Sudoku {
        self.current_problem
    }

    /// The callback that decides on the solutions of the current generation,
    /// while it waits for one.
    pub closed spec fn callback(&self) -> Option<F> {
        self.solution_callback
    }

    /// The problem is a board in good order.
    pub closed spec fn wf(&self) -> bool {
        self.current_problem.wf() && self.current_problem.in_sync()
    }

    /// A slot with nothing to do: generation 0, an empty board, no callback.
    pub fn new() -> (r: Self)
        ensures
            r.wf(),
            r@ == fresh_slot(),
            r.problem()@ == crate::rules::empty_grid(),
            r.callback() is None,
    {
        SharedContext {
            current_problem_index: 0,
            current_problem: Sudoku::new(),
            solution_callback: None,
        }
    }

    /// The current generation.
    pub fn generation(&self) -> (r: i32)
        ensures
            r == self@.generation,
    {
        self.current_problem_index
    }

    /// Whether the current generation still waits for a solution.
    pub fn is_pending(&self) -> (r: bool)
        ensures
            r == self@.pending,
    {
        self.solution_callback.is_some()
    }

    /// Publishes a new problem: the generation goes up by one, the board and
    /// the callback take the place of what was there.
    pub fn submit(&mut self, sudoku: &Sudoku, callback: F)
        requires
            is_allowed(old(self)@, SlotEvent::Submit),
            sudoku.wf(),
            sudoku.in_sync(),
        ensures
            final(self).wf(),
            final(self)@ == step(old(self)@, SlotEvent::Submit),
            final(self).problem() == *sudoku,
            final(self).callback() == Some(callback),
    {
        self.current_problem_index = self.current_problem_index + 1;
        self.current_problem = *sudoku;
        self.solution_callback = Some(callback);
    }

    /// What a worker that looks for work does next. A worker that is to stay
    /// alive retries after it has yielded; one that is not returns.
    pub fn next_step(&self, stay_alive: bool) -> (r: WorkerStep)
        ensures
            r == (if self@.generation == SHUTDOWN {
                WorkerStep::Exit
            } else if !self@.pending {
                if stay_alive {
                    WorkerStep::YieldThenRetry
                } else {
                    WorkerStep::YieldThenReturn
                }
            } else {
                WorkerStep::Solve { generation: self@.generation, problem: self.problem() }
            }),
    {
        if self.current_problem_index == SHUTDOWN {
            WorkerStep::Exit
        } else if self.solution_callback.is_none() {
            if stay_alive {
                WorkerStep::YieldThenRetry
            } else {
                WorkerStep::YieldThenReturn
            }
        } else {
            WorkerStep::Solve {
                generation: self.current_problem_index,
                problem: self.current_problem,
            }
        }
    }

    /// Takes the report of a worker that started on `generation` and has found
    /// `candidate`. The callback is asked only while the generation is current
    /// and unsolved; when it accepts, the generation is solved and the
    /// callback is dropped.
    pub fn report(&mut self, generation: i32, candidate: &Sudoku) -> (verdict: Verdict)
        requires
            old(self).callback() matches Some(callback) ==> call_requires(callback, (candidate,)),
        ensures
            final(self).problem() == old(self).problem(),
            final(self).wf() == old(self).wf(),
            match verdict {
                Verdict::Accepted => {
                    &&& old(self).callback() matches Some(callback)
                    &&& call_ensures(callback, (candidate,), true)
                    &&& verdict == verdict_of(old(self)@, generation, true)
                    &&& final(self)@ == step(
                        old(self)@,
                        (SlotEvent::Report { generation, accept: true }),
                    )
                    &&& final(self).callback() is None
                },
                Verdict::KeepSearching => {
                    &&& old(self).callback() matches Some(callback)
                    &&& call_ensures(callback, (candidate,), false)
                    &&& verdict == verdict_of(old(self)@, generation, false)
                    &&& final(self)@ == old(self)@
                    &&& final(self).callback() == old(self).callback()
                },
                Verdict::Abort => {
                    &&& forall|accept: bool|
                        verdict == #[trigger] verdict_of(old(self)@, generation, accept)
                    &&& final(self)@ == old(self)@
                    &&& final(self).callback() == old(self).callback()
                },
            },
    {
        let current = self.current_problem_index == generation;
        let accepted = match &self.solution_callback {
            Some(callback) => current && callback(candidate),
            None => false,
        };
        if accepted {
            self.solution_callback = None;
            Verdict::Accepted
        } else if self.solution_callback.is_none() || !current {
            Verdict::Abort
        } else {
            Verdict::KeepSearching
        }
    }

    /// Whether a worker that started on `generation` should give up: its
    /// generation is solved, or another has taken its place.
    pub fn should_abort(&self, generation: i32) -> (r: bool)
        ensures
            r == !(self@.pending && self@.generation == generation),
            r == (forall|accept: bool|
                #[trigger] verdict_of(self@, generation, accept) == Verdict::Abort),
    {
        proof {
            if self@.pending && self@.generation == generation {
                assert(verdict_of(self@, generation, true) == Verdict::Accepted);
            }
        }
        self.solution_callback.is_none() || self.current_problem_index != generation
    }

    /// Tells every worker to stop for good.
    pub fn shut_down(&mut self)
        ensures
            final(self)@ == step(old(self)@, SlotEvent::ShutDown),
            final(self).problem() == old(self).problem(),
            final(self).callback() == old(self).callback(),
            final(self).wf() == old(self).wf(),
    {
        self.current_problem_index = SHUTDOWN;
    }
}

} // verus!
