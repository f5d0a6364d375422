use std::cell::{Cell, RefCell};
use sudoku_solver::coordinator::{SharedContext, Verdict, WorkerStep, SHUTDOWN};
use sudoku_solver::{solve_single_thread, SearchOutcome, Sudoku};

const PUZZLE_A: &str =
    "000720030007006820106008709003091000580407200000000006840650010600143900005000402";
const SOLUTION_A: &str =
    "958724631437916825126538749763291584581467293294385176849652317672143958315879462";
const PUZZLE_B: &str =
    "900724030030050784100083000093400006001208009000900370016000040304860020200040000";
const SOLUTION_B: &str =
    "958724631632159784147683592893475216761238459425916378516392847374861925289547163";

type Callback<'a> = Box<dyn Fn(&Sudoku) -> bool + 'a>;

fn is_solve(step: &WorkerStep) -> bool {
    matches!(step, WorkerStep::Solve { .. })
}

#[test]
fn fresh_slot_has_nothing_to_do() {
    let slot: SharedContext<Callback> = SharedContext::new();
    assert_eq!(slot.generation(), 0);
    assert!(!slot.is_pending());
    assert!(matches!(slot.next_step(true), WorkerStep::YieldThenRetry));
    assert!(matches!(slot.next_step(false), WorkerStep::YieldThenReturn));
    assert!(slot.should_abort(0));
}

#[test]
fn submit_publishes_the_problem_under_the_next_generation() {
    let mut slot: SharedContext<Callback> = SharedContext::new();
    let puzzle = Sudoku::from_text(PUZZLE_A);
    slot.submit(&puzzle, Box::new(|_| true));
    assert_eq!(slot.generation(), 1);
    assert!(slot.is_pending());
    match slot.next_step(true) {
        WorkerStep::Solve { generation, problem } => {
            assert_eq!(generation, 1);
            assert!(problem == puzzle);
        }
        _ => panic!("a pending problem is to be solved"),
    }
    assert!(is_solve(&slot.next_step(false)));
    assert!(!slot.should_abort(1));
    assert!(slot.should_abort(0));
    assert!(slot.should_abort(2));
    slot.submit(&Sudoku::from_text(PUZZLE_B), Box::new(|_| true));
    assert_eq!(slot.generation(), 2);
}

#[test]
fn only_one_report_is_accepted_for_a_generation() {
    let asked = Cell::new(0);
    let mut slot: SharedContext<Callback> = SharedContext::new();
    slot.submit(
        &Sudoku::from_text(PUZZLE_A),
        Box::new(|s: &Sudoku| {
            asked.set(asked.get() + 1);
            s.is_valid()
        }),
    );
    let solution = Sudoku::from_text(SOLUTION_A);
    assert_eq!(slot.report(1, &solution), Verdict::Accepted);
    assert!(!slot.is_pending());
    assert_eq!(slot.generation(), 1);
    assert!(slot.should_abort(1));
    // A second worker with the same solution comes too late.
    assert_eq!(slot.report(1, &solution), Verdict::Abort);
    assert_eq!(slot.report(1, &solution), Verdict::Abort);
    assert_eq!(asked.get(), 1);
    assert!(matches!(slot.next_step(true), WorkerStep::YieldThenRetry));
}

#[test]
fn report_that_is_turned_down_keeps_the_search_going() {
    let wanted = Sudoku::from_text(SOLUTION_A);
    let mut slot: SharedContext<Callback> = SharedContext::new();
    slot.submit(&Sudoku::from_text(PUZZLE_A), Box::new(|s: &Sudoku| *s == wanted));
    assert_eq!(slot.report(1, &Sudoku::from_text(SOLUTION_B)), Verdict::KeepSearching);
    assert!(slot.is_pending());
    assert!(!slot.should_abort(1));
    assert_eq!(slot.report(1, &wanted), Verdict::Accepted);
    assert!(!slot.is_pending());
}

#[test]
fn superseded_generation_is_rejected() {
    let asked_a = Cell::new(0);
    let asked_b = Cell::new(0);
    let mut slot: SharedContext<Callback> = SharedContext::new();
    slot.submit(
        &Sudoku::from_text(PUZZLE_A),
        Box::new(|_| {
            asked_a.set(asked_a.get() + 1);
            true
        }),
    );
    let generation_a = slot.generation();
    slot.submit(
        &Sudoku::from_text(PUZZLE_B),
        Box::new(|s: &Sudoku| {
            asked_b.set(asked_b.get() + 1);
            s.to_line() == SOLUTION_B
        }),
    );
    let generation_b = slot.generation();
    assert_ne!(generation_a, generation_b);
    assert!(slot.should_abort(generation_a));
    // The late solution of A is not even shown to a callback.
    assert_eq!(slot.report(generation_a, &Sudoku::from_text(SOLUTION_A)), Verdict::Abort);
    assert_eq!(asked_a.get(), 0);
    assert_eq!(asked_b.get(), 0);
    assert!(slot.is_pending());
    assert_eq!(slot.report(generation_b, &Sudoku::from_text(SOLUTION_B)), Verdict::Accepted);
    assert_eq!(asked_b.get(), 1);
    assert_eq!(slot.report(generation_a, &Sudoku::from_text(SOLUTION_A)), Verdict::Abort);
    assert_eq!(asked_a.get(), 0);
}

#[test]
fn shut_down_makes_every_worker_exit() {
    let mut slot: SharedContext<Callback> = SharedContext::new();
    slot.submit(&Sudoku::from_text(PUZZLE_A), Box::new(|_| true));
    slot.shut_down();
    assert_eq!(slot.generation(), SHUTDOWN);
    assert_eq!(SHUTDOWN, -1);
    assert!(matches!(slot.next_step(true), WorkerStep::Exit));
    assert!(matches!(slot.next_step(false), WorkerStep::Exit));
    assert!(slot.should_abort(1));
    assert_eq!(slot.report(1, &Sudoku::from_text(SOLUTION_A)), Verdict::Abort);
}

/// One worker's search, wired to the slot as the workers are.
fn work<'a>(
    slot: &RefCell<SharedContext<Callback<'a>>>,
    order: impl Fn(usize) -> u8,
) -> Option<(SearchOutcome, Sudoku)> {
    let step = slot.borrow().next_step(false);
    match step {
        WorkerStep::Solve { generation, mut problem } => {
            let outcome = solve_single_thread(
                &mut problem,
                |s: &Sudoku| slot.borrow_mut().report(generation, s) != Verdict::KeepSearching,
                || slot.borrow().should_abort(generation),
                order,
            );
            Some((outcome, problem))
        }
        _ => None,
    }
}

#[test]
fn workers_with_different_orders_accept_one_solution() {
    let accepted = RefCell::new(Vec::new());
    let slot: RefCell<SharedContext<Callback>> = RefCell::new(SharedContext::new());
    slot.borrow_mut().submit(
        &Sudoku::from_text(PUZZLE_A),
        Box::new(|s: &Sudoku| {
            accepted.borrow_mut().push(s.to_line());
            true
        }),
    );
    // Both workers pick the problem up before either has finished.
    let first = slot.borrow().next_step(true);
    let second = slot.borrow().next_step(true);
    assert!(is_solve(&first) && is_solve(&second));
    let done = work(&slot, |k| k as u8);
    assert!(matches!(done, Some((SearchOutcome::Accepted, _))));
    assert_eq!(done.unwrap().1.to_line(), SOLUTION_A);
    // The second worker reports its solution after the first was taken.
    if let WorkerStep::Solve { generation, mut problem } = second {
        let outcome = solve_single_thread(
            &mut problem,
            |s: &Sudoku| slot.borrow_mut().report(generation, s) != Verdict::KeepSearching,
            || slot.borrow().should_abort(generation),
            |k| (80 - k) as u8,
        );
        // It stops on its first report, which is not an acceptance.
        assert_eq!(outcome, SearchOutcome::Accepted);
    }
    assert!(work(&slot, |k| k as u8).is_none());
    assert_eq!(*accepted.borrow(), vec![SOLUTION_A.to_string()]);
}

#[test]
fn end_to_end_example_through_the_slot() {
    let found = RefCell::new(None);
    let slot: RefCell<SharedContext<Callback>> = RefCell::new(SharedContext::new());
    slot.borrow_mut().submit(
        &Sudoku::from_text(PUZZLE_A),
        Box::new(|s: &Sudoku| {
            assert!(s.is_valid());
            *found.borrow_mut() = Some(s.to_line());
            true
        }),
    );
    assert!(work(&slot, |k| k as u8).is_some());
    assert!(!slot.borrow().is_pending());
    assert_eq!(*found.borrow(), Some(SOLUTION_A.to_string()));
}
