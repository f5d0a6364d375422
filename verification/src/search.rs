//! The search: an iterative depth-first walk over the empty cells of a board,
//! with an explicit stack of candidate cursors, one per level of the visit
//! order.

use crate::board::Sudoku;
use crate::candidates::CandidateSetIterator;
use crate::frontier::{
    is_free, lemma_agree_everywhere, lemma_available_is_open, lemma_before_beyond_level,
    lemma_full_board_is_completion, lemma_region_after_clear, lemma_region_after_place,
    lemma_region_skip, lemma_shape_after_clear, lemma_shape_after_place, lemma_untried_stable,
    lemma_write_keeps_prefix, shape, untried,
};
use crate::order::{
    agree_upto, before_within, is_visit_order, key, key_limit, lemma_before_has_smaller_key,
    lemma_key_bound, natural_order, upto_within, visits_before,
};
use crate::rules::{extends, is_completion};
use vstd::prelude::*;

verus! {

/// How many steps back the search takes between two polls for cancellation.
pub const POLL_INTERVAL: i32 = 100000;

/// Counts one step back of a search, and says whether a poll for
/// cancellation is due: it is once more than `POLL_INTERVAL` steps have been
/// counted since the last one, and the count then starts again.
pub fn poll_due(counter: &mut i32) -> (due: bool)
    requires
        *old(counter) < i32::MAX,
    ensures
        due == (*old(counter) + 1 > POLL_INTERVAL),
        *final(counter) == if due {
            0
        } else {
            *old(counter) + 1
        },
{
    *counter = *counter + 1;
    if *counter > POLL_INTERVAL {
        *counter = 0;
        true
    } else {
        false
    }
}

/// The stack of the search: for each level of the visit order the digits that
/// are still to be tried there, and the level that the search stands at.
struct SearchStack {
    stack: [CandidateSetIterator; 81],
    order: [u8; 81],
    depth: usize,
}

impl SearchStack {
    /// The level that the search stands at: -1 before the first level, 81
    /// past the last.
    spec fn level(&self) -> int {
        if self.depth == usize::MAX {
            -1
        } else {
            self.depth as int
        }
    }

    /// The visit order that the stack was made for.
    spec fn order(&self) -> Seq<u8> {
        self.order@
    }

    /// The cursors fit the board: a level is marked fixed exactly when its
    /// cell was given, and at each free level up to the current one the cursor
    /// holds what is still to be tried there.
    spec fn frames_ok(&self, start: Seq<u8>, b: Seq<u8>, lvl: int) -> bool {
        &&& forall|k: int|
            0 <= k < 81 ==> (#[trigger] self.stack[k]).wf() && (self.stack[k].is_fixed()
                <==> !is_free(start, self.order@, k))
        &&& forall|k: int|
            0 <= k < 81 && k <= lvl && is_free(start, self.order@, k) ==> (
            #[trigger] self.stack[k])@ == untried(start, self.order@, b, k)
    }

    /// What holds between any two steps of a search that began at `start`.
    spec fn inv(&self, start: Seq<u8>, board: &Sudoku) -> bool {
        &&& board.wf()
        &&& board.in_sync()
        &&& shape(start, self.order@, board@, self.level())
        &&& self.frames_ok(start, board@, self.level())
    }

    /// The search stands at a free level whose cursor is not empty.
    spec fn has_untried(&self, start: Seq<u8>) -> bool {
        &&& 0 <= self.level() <= 80
        &&& is_free(start, self.order@, self.level())
        &&& self.stack[self.level()]@ != Set::<int>::empty()
    }

    /// The search has not started, or stands at a free level whose cell is
    /// filled.
    spec fn has_placed(&self, start: Seq<u8>, board: &Sudoku) -> bool {
        self.level() == -1 || (0 <= self.level() <= 80 && is_free(start, self.order@, self.level())
            && board@[self.order@[self.level()] as int] != 0)
    }

    /// A stack for a search of `board` along `order`, standing before the
    /// first level.
    fn new(board: &Sudoku, order: [u8; 81]) -> (r: Self)
        requires
            board.wf(),
            board.in_sync(),
            is_visit_order(order@),
        ensures
            r.inv(board@, board),
            r.order() == order@,
            r.level() == -1,
            r.has_placed(board@, board),
    {
        let mut stack: [CandidateSetIterator; 81] = [CandidateSetIterator::empty();81];
        let mut k: usize = 0;
        while k < 81
            invariant
                0 <= k <= 81,
                is_visit_order(order@),
                forall|j: int| 0 <= j < 81 ==> (#[trigger] stack[j]).wf(),
                forall|j: int|
                    0 <= j < k ==> ((#[trigger] stack[j]).is_fixed() <==> !is_free(
                        board@,
                        order@,
                        j,
                    )),
                forall|j: int| k <= j < 81 ==> !(#[trigger] stack[j]).is_fixed(),
            decreases 81 - k,
        {
            if !board.is_missing(order[k]) {
                stack[k] = CandidateSetIterator::fixed();
            }
            k += 1;
        }
        let r = SearchStack { stack, order, depth: usize::MAX };
        r
    }

    /// Moves on to the next free level and sets its cursor to the digits that
    /// the board allows there. Returns `true` when no free level is left: the
    /// board is then complete.
    fn descend(&mut self, board: &Sudoku, Ghost(start): Ghost<Seq<u8>>) -> (complete: bool)
        requires
            old(self).inv(start, board),
            old(self).has_placed(start, board),
        ensures
            final(self).inv(start, board),
            final(self).order() == old(self).order(),
            old(self).level() < final(self).level() <= 81,
            complete == (final(self).level() == 81),
            complete ==> is_completion(start, board@),
            !complete ==> forall|s: Seq<u8>|
                is_completion(start, s) ==> (#[trigger] upto_within(
                    final(self).order(),
                    s,
                    board@,
                    final(self).level() + 1,
                ) <==> visits_before(final(self).order(), s, board@)),
    {
        let ghost order = self.order@;
        let ghost b = board@;
        let ghost before = *self;
        let ghost lvl0 = self.level();
        if self.depth == usize::MAX {
            self.depth = 0;
        } else {
            self.depth = self.depth + 1;
        }
        while self.depth <= 80 && self.stack[self.depth].is_fixed()
            invariant
                self.order == before.order,
                self.stack == before.stack,
                before.inv(start, board),
                lvl0 == before.level(),
                order == before.order@,
                lvl0 < self.depth <= 81,
                forall|k: int| lvl0 < k < self.depth ==> !is_free(start, order, k),
            decreases 81 - self.depth,
        {
            self.depth = self.depth + 1;
        }
        if self.depth > 80 {
            proof {
                lemma_full_board_is_completion(start, order, b);
            }
            true
        } else {
            let cell = self.order[self.depth];
            let ghost lvl = self.depth as int;
            let frame = board.get_candidates(cell).into_iter();
            self.stack[self.depth] = frame;
            proof {
                assert forall|d: int| frame@.contains(d) <==> untried(
                    start,
                    order,
                    b,
                    lvl,
                ).contains(d) by {
                    if 1 <= d <= 9 {
                        lemma_available_is_open(start, order, b, lvl - 1, lvl, d);
                    }
                }
                assert(self.frames_ok(start, b, lvl)) by {
                    assert forall|k: int|
                        0 <= k < 81 && k <= lvl && is_free(start, order, k) implies (
                    #[trigger] self.stack[k])@ == untried(start, order, b, k) by {
                    }
                }
            }
            false
        }
    }

    /// Steps back over the levels at which nothing is left to try, clearing
    /// their cells, until it stands at a level with a digit left. Returns
    /// `false` when there is no such level: the search is then exhausted and
    /// the board is as it was at the start.
    fn retreat(&mut self, board: &mut Sudoku, Ghost(start): Ghost<Seq<u8>>) -> (alive: bool)
        requires
            old(self).inv(start, old(board)),
            0 <= old(self).level(),
        ensures
            final(self).inv(start, final(board)),
            final(self).order() == old(self).order(),
            final(self).level() <= old(self).level(),
            final(self).level() <= 80,
            alive == (final(self).level() >= 0),
            alive ==> final(self).has_untried(start),
            !alive ==> final(board)@ == start,
            agree_upto(old(self).order(), old(board)@, final(board)@, final(self).level() + 1),
            forall|s: Seq<u8>|
                is_completion(start, s) ==> (#[trigger] upto_within(
                    final(self).order(),
                    s,
                    final(board)@,
                    final(self).level() + 1,
                ) <==> upto_within(
                    old(self).order(),
                    s,
                    old(board)@,
                    if old(self).level() == 81 {
                        81
                    } else {
                        old(self).level() + 1
                    },
                )),
    {
        let ghost order = self.order@;
        let ghost b0 = board@;
        let ghost before = *self;
        if self.depth > 80 {
            self.depth = 80;
        }
        let ghost top = self.depth as int;
        while self.depth <= 80 && (self.stack[self.depth].is_empty()
            || self.stack[self.depth].is_fixed())
            invariant
                self.order == before.order,
                order == before.order@,
                self.depth <= 80 || self.depth == usize::MAX,
                self.level() <= top <= 80,
                self.inv(start, board),
                agree_upto(order, b0, board@, self.level() + 1),
                forall|s: Seq<u8>|
                    is_completion(start, s) ==> (#[trigger] upto_within(
                        order,
                        s,
                        board@,
                        self.level() + 1,
                    ) <==> upto_within(order, s, b0, top + 1)),
            decreases self.level() + 1,
        {
            let ghost b = board@;
            let ghost lvl = self.depth as int;
            if !self.stack[self.depth].is_fixed() {
                board.set(self.order[self.depth], 0);
                proof {
                    lemma_shape_after_clear(start, order, b, lvl);
                    lemma_write_keeps_prefix(order, b, lvl, 0u8);
                    assert forall|s: Seq<u8>| is_completion(start, s) implies (
                    #[trigger] upto_within(order, s, board@, lvl) <==> upto_within(
                        order,
                        s,
                        b0,
                        top + 1,
                    )) by {
                        lemma_region_after_clear(start, order, b, s, lvl);
                    }
                    assert forall|k: int|
                        0 <= k < 81 && k <= lvl - 1 && is_free(start, order, k) implies (
                    #[trigger] self.stack[k])@ == untried(start, order, board@, k) by {
                        lemma_untried_stable(start, order, b, lvl, 0u8, k);
                    }
                }
            } else {
                proof {
                    assert forall|s: Seq<u8>| is_completion(start, s) implies (
                    #[trigger] upto_within(order, s, board@, lvl) <==> upto_within(
                        order,
                        s,
                        b0,
                        top + 1,
                    )) by {
                        lemma_region_skip(start, order, b, s, lvl);
                    }
                }
            }
            if self.depth == 0 {
                self.depth = usize::MAX;
            } else {
                self.depth = self.depth - 1;
            }
        }
        proof {
            if self.depth > 80 {
                assert(board@ =~= start) by {
                    assert forall|p: int| 0 <= p < 81 implies board@[p] == start[p] by {
                        crate::order::lemma_order_reaches(order, p);
                    }
                }
            }
        }
        self.depth <= 80
    }

    /// Takes the smallest digit that is left to try at the current level and
    /// writes it into the level's cell.
    fn place(&mut self, board: &mut Sudoku, Ghost(start): Ghost<Seq<u8>>)
        requires
            old(self).inv(start, old(board)),
            old(self).has_untried(start),
        ensures
            final(self).inv(start, final(board)),
            final(self).has_placed(start, final(board)),
            final(self).order() == old(self).order(),
            final(self).level() == old(self).level(),
            agree_upto(old(self).order(), old(board)@, final(board)@, old(self).level()),
            old(board)@[old(self).order()[old(self).level()] as int] < final(board)@[old(
                self,
            ).order()[old(self).level()] as int],
            forall|s: Seq<u8>|
                is_completion(start, s) ==> (#[trigger] visits_before(
                    final(self).order(),
                    s,
                    final(board)@,
                ) <==> upto_within(old(self).order(), s, old(board)@, old(self).level() + 1)),
    {
        let ghost order = self.order@;
        let ghost b = board@;
        let ghost lvl = self.depth as int;
        let next = self.stack[self.depth].next();
        let digit = next.unwrap();
        board.set(self.order[self.depth], digit);
        proof {
            let b2 = board@;
            lemma_shape_after_place(start, order, b, lvl, digit);
            lemma_write_keeps_prefix(order, b, lvl, digit);
            assert(self.frames_ok(start, b2, lvl)) by {
                assert forall|k: int|
                    0 <= k < 81 && k <= lvl && is_free(start, order, k) implies (
                #[trigger] self.stack[k])@ == untried(start, order, b2, k) by {
                    if k != lvl {
                        lemma_untried_stable(start, order, b, lvl, digit, k);
                    }
                }
            }
            assert forall|s: Seq<u8>| is_completion(start, s) implies (#[trigger] visits_before(
                order,
                s,
                b2,
            ) <==> upto_within(order, s, b, lvl + 1)) by {
                lemma_region_after_place(start, order, b, s, lvl, digit);
                lemma_before_beyond_level(start, order, b2, s, lvl + 1);
            }
        }
    }
}

/// How a search ended.
#[derive(Clone, Copy, Debug, PartialEq, Eq, Structural)]
pub enum SearchOutcome {
    /// The callback accepted a complete board, which the board now holds.
    Accepted,
    /// Every complete board was offered and none accepted; the board is as it
    /// was at the start.
    Exhausted,
    /// The cancellation check said to stop.
    Cancelled,
}

/// Whether `c` is a board in good order that completes the digits `start`.
pub open spec fn is_solution_board(start: Seq<u8>, c: Sudoku) -> bool {
    c.wf() && c.in_sync() && is_completion(start, c@)
}

/// Whether the callback may be called on every board that a search from
/// `start` can offer.
pub open spec fn accepts_solutions<F: Fn(&Sudoku) -> bool>(callback: F, start: Seq<u8>) -> bool {
    forall|c: Sudoku| is_solution_board(start, c) ==> #[trigger] call_requires(callback, (&c,))
}

/// Whether the callback has turned down every completion of `start` that
/// lies, within the first `m` levels, before `limit` or level with it.
pub open spec fn turned_down_upto<F: Fn(&Sudoku) -> bool>(
    callback: F,
    start: Seq<u8>,
    order: Seq<u8>,
    limit: Seq<u8>,
    m: int,
) -> bool {
    forall|c: Sudoku|
        is_solution_board(start, c) && upto_within(order, c@, limit, m) ==> #[trigger] call_ensures(
            callback,
            (&c,),
            false,
        )
}

/// Whether the callback has turned down every completion of `start` that a
/// search along `order` visits before `limit`.
pub open spec fn turned_down_before<F: Fn(&Sudoku) -> bool>(
    callback: F,
    start: Seq<u8>,
    order: Seq<u8>,
    limit: Seq<u8>,
) -> bool {
    forall|c: Sudoku|
        is_solution_board(start, c) && visits_before(order, c@, limit) ==> #[trigger] call_ensures(
            callback,
            (&c,),
            false,
        )
}

/// Whether the callback has turned down every completion of `start`.
pub open spec fn turned_down_all<F: Fn(&Sudoku) -> bool>(callback: F, start: Seq<u8>) -> bool {
    forall|c: Sudoku| is_solution_board(start, c) ==> #[trigger] call_ensures(callback, (&c,), false)
}

/// What a search along `order` from the board `start` leaves behind. The
/// completions are offered to the callback in visit order, so at the end the
/// callback has turned down all those before the board `end`. Then:
/// - `Accepted`: `end` is a completion of `start` and the callback took it;
/// - `Exhausted`: the callback turned down every completion, and `end` is
///   `start` again;
/// - `Cancelled`: the search was told to stop where it stood.
pub open spec fn search_result<F: Fn(&Sudoku) -> bool>(
    callback: F,
    start: Sudoku,
    order: Seq<u8>,
    outcome: SearchOutcome,
    end: Sudoku,
) -> bool {
    &&& end.wf()
    &&& end.in_sync()
    &&& extends(end@, start@)
    &&& end == start || visits_before(order, start@, end@)
    &&& turned_down_before(callback, start@, order, end@)
    &&& match outcome {
        SearchOutcome::Accepted => is_completion(start@, end@) && call_ensures(
            callback,
            (&end,),
            true,
        ),
        SearchOutcome::Exhausted => end == start && turned_down_all(callback, start@),
        SearchOutcome::Cancelled => true,
    }
}

/// Whether the mapper answers level `k` with cell `order[k]`, whenever asked.
pub open spec fn follows<M: Fn(usize) -> u8>(index_mapper: M, order: Seq<u8>) -> bool {
    forall|k: usize, c: u8|
        k < 81 && #[trigger] call_ensures(index_mapper, (k,), c) ==> c == order[k as int]
}

/// A board that keeps the digits of the start is the start, or comes after it.
proof fn lemma_start_first(order: Seq<u8>, start: &Sudoku, b: &Sudoku)
    requires
        is_visit_order(order),
        start.wf(),
        start.in_sync(),
        b.wf(),
        b.in_sync(),
        extends(b@, start@),
    ensures
        *b == *start || visits_before(order, start@, b@),
{
    crate::order::lemma_first_difference(order, start@, b@, 81);
    if agree_upto(order, start@, b@, 81) {
        lemma_agree_everywhere(order, start@, b@);
        b.lemma_determined_by_digits(start);
    }
}

/// Searches the completions of `sudoku` depth first, filling the empty cells
/// in the order given, each with its allowed digits in ascending order.
///
/// Every complete board that is reached is offered to `callback`; the search
/// ends when the callback returns `true`, when nothing is left to try, or
/// when `is_cancelled`, which is asked once in every `POLL_INTERVAL` steps
/// back, returns `true`.
pub fn search_in_order<F: Fn(&Sudoku) -> bool, C: Fn() -> bool>(
    sudoku: &mut Sudoku,
    order: [u8; 81],
    callback: F,
    is_cancelled: C,
) -> (outcome: SearchOutcome)
    requires
        old(sudoku).wf(),
        old(sudoku).in_sync(),
        is_visit_order(order@),
        accepts_solutions(callback, old(sudoku)@),
        call_requires(is_cancelled, ()),
    ensures
        search_result(callback, *old(sudoku), order@, outcome, *final(sudoku)),
        outcome == SearchOutcome::Cancelled ==> call_ensures(is_cancelled, (), true),
{
    let ghost first = *sudoku;
    let ghost start = sudoku@;
    let ghost ord = order@;
    let mut stack = SearchStack::new(sudoku, order);
    let mut counter: i32 = 0;
    let complete = stack.descend(sudoku, Ghost(start));
    if complete {
        if callback(&*sudoku) {
            return SearchOutcome::Accepted;
        }
        proof {
            assert forall|c: Sudoku|
                is_solution_board(start, c) && upto_within(
                    ord,
                    c@,
                    start,
                    81,
                ) implies #[trigger] call_ensures(callback, (&c,), false) by {
                if !visits_before(ord, c@, start) {
                    lemma_agree_everywhere(ord, c@, start);
                    c.lemma_determined_by_digits(sudoku);
                }
            }
        }
    }
    loop
        invariant
            first == *old(sudoku),
            first.wf(),
            first.in_sync(),
            first@ == start,
            ord == order@,
            is_visit_order(ord),
            accepts_solutions(callback, start),
            call_requires(is_cancelled, ()),
            stack.inv(start, sudoku),
            stack.order() == ord,
            0 <= stack.level() <= 81,
            0 <= counter <= POLL_INTERVAL,
            turned_down_upto(
                callback,
                start,
                ord,
                sudoku@,
                if stack.level() == 81 {
                    81
                } else {
                    stack.level() + 1
                },
            ),
        decreases key_limit(81) - key(ord, sudoku@, 81),
    {
        let ghost b = sudoku@;
        proof {
            lemma_key_bound(ord, b, 81);
        }
        let alive = stack.retreat(sudoku, Ghost(start));
        let ghost b1 = sudoku@;
        let ghost lvl = stack.level();
        proof {
            assert(turned_down_upto(callback, start, ord, b1, lvl + 1));
        }
        if !alive {
            proof {
                sudoku.lemma_determined_by_digits(&first);
            }
            return SearchOutcome::Exhausted;
        }
        let due = poll_due(&mut counter);
        if due {
            if is_cancelled() {
                proof {
                    lemma_start_first(ord, &first, sudoku);
                }
                return SearchOutcome::Cancelled;
            }
        }
        stack.place(sudoku, Ghost(start));
        let ghost b2 = sudoku@;
        proof {
            assert(visits_before(ord, b, b2)) by {
                assert(agree_upto(ord, b, b2, lvl));
            }
            lemma_before_has_smaller_key(ord, b, b2);
            lemma_key_bound(ord, b2, 81);
        }
        let complete = stack.descend(sudoku, Ghost(start));
        if complete {
            if callback(&*sudoku) {
                proof {
                    lemma_start_first(ord, &first, sudoku);
                }
                return SearchOutcome::Accepted;
            }
            proof {
                assert forall|c: Sudoku|
                    is_solution_board(start, c) && upto_within(
                        ord,
                        c@,
                        b2,
                        81,
                    ) implies #[trigger] call_ensures(callback, (&c,), false) by {
                    if !visits_before(ord, c@, b2) {
                        lemma_agree_everywhere(ord, c@, b2);
                        c.lemma_determined_by_digits(sudoku);
                    }
                }
            }
        }
    }
}

/// Solves `sudoku` by exhaustive backtracking: searches its completions depth
/// first, visiting the cells in the order that `index_mapper` gives (level
/// `k` fills cell `index_mapper(k)`), and offers each complete board to
/// `callback` until it returns `true`. `is_cancelled` is polled once in every
/// `POLL_INTERVAL` steps back, and ends the search when it returns `true`.
///
/// The board must have its candidate sets in sync, and the mapper must map
/// the levels 0 to 80 one to one onto the cells.
pub fn solve_single_thread(
    sudoku: &mut Sudoku,
    callback: impl Fn(&Sudoku) -> bool,
    is_cancelled: impl Fn() -> bool,
    index_mapper: impl Fn(usize) -> u8,
) -> (outcome: SearchOutcome)
    requires
        old(sudoku).wf(),
        old(sudoku).in_sync(),
        accepts_solutions(callback, old(sudoku)@),
        call_requires(is_cancelled, ()),
        forall|k: usize| k < 81 ==> call_requires(index_mapper, (k,)),
        exists|order: Seq<u8>| is_visit_order(order) && follows(index_mapper, order),
    ensures
        forall|order: Seq<u8>|
            is_visit_order(order) && follows(index_mapper, order) ==> search_result(
                callback,
                *old(sudoku),
                order,
                outcome,
                *final(sudoku),
            ),
        outcome == SearchOutcome::Cancelled ==> call_ensures(is_cancelled, (), true),
{
    let mut order: [u8; 81] = [0;81];
    let mut k: usize = 0;
    while k < 81
        invariant
            0 <= k <= 81,
            forall|j: usize| j < 81 ==> call_requires(index_mapper, (j,)),
            forall|j: int| 0 <= j < k ==> call_ensures(index_mapper, (j as usize,), #[trigger] order[j]),
        decreases 81 - k,
    {
        order[k] = index_mapper(k);
        k += 1;
    }
    let outcome = search_in_order(sudoku, order, callback, is_cancelled);
    proof {
        assert forall|other: Seq<u8>|
            is_visit_order(other) && follows(index_mapper, other) implies search_result(
            callback,
            *old(sudoku),
            other,
            outcome,
            *sudoku,
        ) by {
            assert(other =~= order@);
        }
    }
    outcome
}

/// Solves `sudoku` by exhaustive backtracking over its empty cells in the
/// order of their index, offering each complete board to `callback` until it
/// returns `true` or nothing is left to try.
pub fn solve(sudoku: &mut Sudoku, callback: impl Fn(&Sudoku) -> bool) -> (outcome: SearchOutcome)
    requires
        old(sudoku).wf(),
        old(sudoku).in_sync(),
        accepts_solutions(callback, old(sudoku)@),
    ensures
        search_result(callback, *old(sudoku), natural_order(), outcome, *final(sudoku)),
        outcome != SearchOutcome::Cancelled,
{
    let mut order: [u8; 81] = [0;81];
    let mut k: usize = 0;
    while k < 81
        invariant
            0 <= k <= 81,
            forall|j: int| 0 <= j < k ==> order[j] == j,
        decreases 81 - k,
    {
        order[k] = k as u8;
        k += 1;
    }
    proof {
        assert(order@ =~= natural_order());
    }
    let never = || -> (r: bool)
        ensures
            !r,
        { false };
    search_in_order(sudoku, order, callback, never)
}

/// Whether the callback gives one answer for each board.
pub open spec fn is_deterministic<F: Fn(&Sudoku) -> bool>(callback: F) -> bool {
    forall|c: Sudoku, r1: bool, r2: bool|
        #[trigger] call_ensures(callback, (&c,), r1) && #[trigger] call_ensures(callback, (&c,), r2)
            ==> r1 == r2
}

/// Two searches that are not cancelled, from the same board, along the same
/// order and with the same callback, end in the same way on the same board,
/// provided the callback gives one answer for each board: the completions are
/// offered in one order, and the first that is accepted ends the search.
pub proof fn lemma_search_is_deterministic<F: Fn(&Sudoku) -> bool>(
    callback: F,
    start: Sudoku,
    order: Seq<u8>,
    outcome1: SearchOutcome,
    end1: Sudoku,
    outcome2: SearchOutcome,
    end2: Sudoku,
)
    requires
        is_visit_order(order),
        is_deterministic(callback),
        search_result(callback, start, order, outcome1, end1),
        search_result(callback, start, order, outcome2, end2),
        outcome1 != SearchOutcome::Cancelled,
        outcome2 != SearchOutcome::Cancelled,
    ensures
        outcome1 == outcome2,
        end1 == end2,
{
    if outcome1 == SearchOutcome::Accepted && outcome2 == SearchOutcome::Accepted {
        crate::order::lemma_visits_total(order, end1@, end2@);
        if end1@ == end2@ {
            end1.lemma_determined_by_digits(&end2);
        } else if visits_before(order, end1@, end2@) {
            assert(call_ensures(callback, (&end1,), false));
        } else {
            assert(call_ensures(callback, (&end2,), false));
        }
    } else if outcome2 == SearchOutcome::Accepted {
        assert(call_ensures(callback, (&end2,), false));
    }
}

/// From a board without collisions, whatever a search offers or accepts is
/// solved and keeps the digits that were given; and every solved grid that
/// keeps them is a completion, so that a search which ends exhausted has
/// offered it.
pub proof fn lemma_offers_are_solutions(start: Sudoku, c: Sudoku)
    requires
        start.wf(),
        crate::rules::consistent(start@),
    ensures
        is_solution_board(start@, c) <==> (c.wf() && c.in_sync() && crate::rules::solved(c@)
            && extends(c@, start@)),
{
    crate::rules::lemma_completions_are_solutions(start@, c@);
}

} // verus!
