//! What a depth-first search along a visit order holds true between its steps:
//! the shape of the board below and above the current level, and which
//! completions lie behind it.

use crate::order::{agree_upto, before_within, is_visit_order, lemma_order_reaches, upto_within};
use crate::rules::{
    available, extends, has_twin, is_completion, is_grid, lemma_available_iff_no_holder,
    same_house,
};
use vstd::prelude::*;

verus! {

/// Whether the cell of level `k` was empty at the start, so that the search
/// fills it.
pub open spec fn is_free(start: Seq<u8>, order: Seq<u8>, k: int) -> bool {
    start[order[k] as int] == 0
}

/// Whether digit `d` may go into the cell of level `k`: no other cell in its
/// houses that was given, or that an earlier level filled, holds `d`.
pub open spec fn open_at(start: Seq<u8>, order: Seq<u8>, b: Seq<u8>, k: int, d: int) -> bool {
    forall|j: int|
        0 <= j < 81 && j != k && same_house(order[k] as int, #[trigger] order[j] as int) && (
        !is_free(start, order, j) || j < k) ==> b[order[j] as int] != d
}

/// The digits that are still to be tried at level `k`: those above the digit
/// that the cell holds now which may go there.
pub open spec fn untried(start: Seq<u8>, order: Seq<u8>, b: Seq<u8>, k: int) -> Set<int> {
    Set::new(|d: int| 1 <= d <= 9 && d > b[order[k] as int] && open_at(start, order, b, k, d))
}

/// The shape of the board while the search stands at level `lvl`: the given
/// digits are in place, the free cells below the level are filled, those above
/// it are empty, and no filled-in digit occurs twice in a house.
pub open spec fn shape(start: Seq<u8>, order: Seq<u8>, b: Seq<u8>, lvl: int) -> bool {
    &&& is_grid(start)
    &&& is_grid(b)
    &&& is_visit_order(order)
    &&& -1 <= lvl <= 81
    &&& extends(b, start)
    &&& forall|k: int|
        0 <= k < 81 && k > lvl && is_free(start, order, k) ==> b[#[trigger] order[k] as int] == 0
    &&& forall|k: int|
        0 <= k < 81 && k < lvl && is_free(start, order, k) ==> b[#[trigger] order[k] as int] != 0
    &&& forall|p: int| 0 <= p < 81 && start[p] == 0 && b[p] != 0 ==> !#[trigger] has_twin(b, p)
}

/// A completion that agrees with the board below level `k` holds at level `k`
/// a digit that may go there.
pub proof fn lemma_completion_digit_is_open(
    start: Seq<u8>,
    order: Seq<u8>,
    b: Seq<u8>,
    s: Seq<u8>,
    k: int,
)
    requires
        is_visit_order(order),
        is_grid(start),
        extends(b, start),
        is_completion(start, s),
        agree_upto(order, s, b, k),
        0 <= k < 81,
        is_free(start, order, k),
    ensures
        open_at(start, order, b, k, s[order[k] as int] as int),
{
    let d = s[order[k] as int];
    assert forall|j: int|
        0 <= j < 81 && j != k && same_house(order[k] as int, #[trigger] order[j] as int) && (
        !is_free(start, order, j) || j < k) implies b[order[j] as int] != d by {
        let q = order[j] as int;
        let p = order[k] as int;
        assert(order[j] != order[k]);
        if !is_free(start, order, j) {
            assert(start[q] != 0);
            assert(b[q] == start[q]);
            assert(s[q] == start[q]);
        }
        assert(b[q] == s[q]);
        if s[q] == d {
            assert(start[p] == 0);
            assert(has_twin(s, p));
        }
    }
}

/// Whether a digit may go into the cell of level `k` depends only on the
/// given cells and on the levels below `k`.
pub proof fn lemma_open_at_stable(
    start: Seq<u8>,
    order: Seq<u8>,
    b: Seq<u8>,
    b2: Seq<u8>,
    k: int,
    d: int,
)
    requires
        is_visit_order(order),
        0 <= k < 81,
        forall|j: int|
            0 <= j < 81 && (!is_free(start, order, j) || j < k) ==> b[#[trigger] order[j] as int]
                == b2[order[j] as int],
    ensures
        open_at(start, order, b, k, d) == open_at(start, order, b2, k, d),
{
}

/// While the cell of level `k` and the free cells above it are empty, the
/// digits that may go into the cell are those that occur nowhere in its row,
/// column and box.
pub proof fn lemma_available_is_open(
    start: Seq<u8>,
    order: Seq<u8>,
    b: Seq<u8>,
    lvl: int,
    k: int,
    d: int,
)
    requires
        shape(start, order, b, lvl),
        lvl < k < 81,
        is_free(start, order, k),
        1 <= d <= 9,
    ensures
        available(b, order[k] as int, d) <==> open_at(start, order, b, k, d),
{
    let p = order[k] as int;
    assert(order[k] < 81);
    lemma_available_iff_no_holder(b, p, d);
    if available(b, p, d) {
        assert forall|j: int|
            0 <= j < 81 && j != k && same_house(p, #[trigger] order[j] as int) && (!is_free(
                start,
                order,
                j,
            ) || j < k) implies b[order[j] as int] != d by {
            assert(order[j] < 81);
        }
    }
    if open_at(start, order, b, k, d) {
        assert forall|q: int| 0 <= q < 81 && same_house(p, q) implies #[trigger] b[q] != d by {
            lemma_order_reaches(order, q);
            let j = choose|j: int| 0 <= j < 81 && #[trigger] order[j] == q;
            if j == k {
                assert(b[order[k] as int] == 0);
            } else if !is_free(start, order, j) || j < k {
                assert(b[order[j] as int] != d);
            } else {
                assert(b[order[j] as int] == 0);
            }
        }
    }
}

/// Clearing the free cell of level `lvl` keeps the shape, one level lower.
pub proof fn lemma_shape_after_clear(start: Seq<u8>, order: Seq<u8>, b: Seq<u8>, lvl: int)
    requires
        shape(start, order, b, lvl),
        0 <= lvl <= 80,
        is_free(start, order, lvl),
    ensures
        shape(start, order, b.update(order[lvl] as int, 0u8), lvl - 1),
{
    let p = order[lvl] as int;
    let b2 = b.update(p, 0u8);
    assert(order[lvl] < 81);
    assert forall|k: int| 0 <= k < 81 && k > lvl - 1 && is_free(start, order, k) implies b2[
        #[trigger] order[k] as int] == 0 by {
        if k != lvl {
            assert(order[k] != order[lvl]);
        }
    }
    assert forall|k: int| 0 <= k < 81 && k < lvl - 1 && is_free(start, order, k) implies b2[
        #[trigger] order[k] as int] != 0 by {
        assert(order[k] != order[lvl]);
    }
    assert forall|q: int| 0 <= q < 81 && start[q] == 0 && b2[q] != 0 implies !#[trigger] has_twin(
        b2,
        q,
    ) by {
        if has_twin(b2, q) {
            let t = choose|t: int|
                0 <= t < 81 && t != q && same_house(q, t) && #[trigger] b2[t] == b2[q];
            assert(b[t] == b[q]);
            assert(has_twin(b, q));
        }
    }
    assert forall|q: int| 0 <= q < 81 && #[trigger] start[q] != 0 implies b2[q] == start[q] by {
        assert(b[q] == start[q]);
    }
}

/// Writing into the free cell of level `lvl` a digit that may go there keeps
/// the shape.
pub proof fn lemma_shape_after_place(
    start: Seq<u8>,
    order: Seq<u8>,
    b: Seq<u8>,
    lvl: int,
    d: u8,
)
    requires
        shape(start, order, b, lvl),
        0 <= lvl <= 80,
        is_free(start, order, lvl),
        1 <= d <= 9,
        open_at(start, order, b, lvl, d as int),
    ensures
        shape(start, order, b.update(order[lvl] as int, d), lvl),
        !has_twin(b.update(order[lvl] as int, d), order[lvl] as int),
{
    let p = order[lvl] as int;
    let b2 = b.update(p, d);
    assert(order[lvl] < 81);
    assert forall|k: int| 0 <= k < 81 && k > lvl && is_free(start, order, k) implies b2[
        #[trigger] order[k] as int] == 0 by {
        assert(order[k] != order[lvl]);
    }
    assert forall|k: int| 0 <= k < 81 && k < lvl && is_free(start, order, k) implies b2[
        #[trigger] order[k] as int] != 0 by {
        assert(order[k] != order[lvl]);
    }
    assert forall|q: int| 0 <= q < 81 && #[trigger] start[q] != 0 implies b2[q] == start[q] by {
        assert(b[q] == start[q]);
    }
    // No cell in a house of `p` holds `d`, but `p` itself.
    assert forall|t: int| 0 <= t < 81 && t != p && same_house(p, t) implies b2[t] != d by {
        lemma_order_reaches(order, t);
        let j = choose|j: int| 0 <= j < 81 && #[trigger] order[j] == t;
        if !is_free(start, order, j) || j < lvl {
            assert(b[order[j] as int] != d);
        } else {
            assert(j > lvl);
            assert(b[order[j] as int] == 0);
        }
    }
    assert(!has_twin(b2, p)) by {
        if has_twin(b2, p) {
            let t = choose|t: int|
                0 <= t < 81 && t != p && same_house(p, t) && #[trigger] b2[t] == b2[p];
            assert(b2[t] != d);
        }
    }
    assert forall|q: int| 0 <= q < 81 && start[q] == 0 && b2[q] != 0 implies !#[trigger] has_twin(
        b2,
        q,
    ) by {
        if q != p && has_twin(b2, q) {
            let t = choose|t: int|
                0 <= t < 81 && t != q && same_house(q, t) && #[trigger] b2[t] == b2[q];
            if t == p {
                assert(same_house(p, q));
                assert(b2[q] != d);
            } else {
                assert(b[t] == b[q]);
                assert(has_twin(b, q));
            }
        }
    }
}

/// Once every level is filled, the board is a completion of the start.
pub proof fn lemma_full_board_is_completion(start: Seq<u8>, order: Seq<u8>, b: Seq<u8>)
    requires
        shape(start, order, b, 81),
    ensures
        is_completion(start, b),
{
    assert forall|p: int| 0 <= p < 81 implies #[trigger] b[p] != 0 by {
        lemma_order_reaches(order, p);
        let k = choose|k: int| 0 <= k < 81 && #[trigger] order[k] == p;
        if is_free(start, order, k) {
            assert(b[order[k] as int] != 0);
        } else {
            assert(start[p] != 0);
            assert(b[p] == start[p]);
        }
    }
    assert forall|p: int| 0 <= p < 81 && #[trigger] start[p] == 0 implies !has_twin(b, p) by {
        assert(b[p] != 0);
    }
}

/// A completion comes before the board within `m` levels exactly when it
/// comes before it at all, as long as the free cells from level `m` on are
/// empty.
pub proof fn lemma_before_beyond_level(
    start: Seq<u8>,
    order: Seq<u8>,
    b: Seq<u8>,
    s: Seq<u8>,
    m: int,
)
    requires
        is_visit_order(order),
        is_grid(start),
        extends(b, start),
        is_completion(start, s),
        0 <= m <= 81,
        forall|k: int|
            m <= k < 81 && is_free(start, order, k) ==> b[#[trigger] order[k] as int] == 0,
    ensures
        before_within(order, s, b, m) <==> before_within(order, s, b, 81),
{
    if before_within(order, s, b, m) {
        let k = choose|k: int|
            0 <= k < m && #[trigger] agree_upto(order, s, b, k) && s[order[k] as int]
                < b[order[k] as int];
        assert(before_within(order, s, b, 81));
    }
    if before_within(order, s, b, 81) {
        let k = choose|k: int|
            0 <= k < 81 && #[trigger] agree_upto(order, s, b, k) && s[order[k] as int]
                < b[order[k] as int];
        if k >= m {
            assert(order[k] < 81);
            if is_free(start, order, k) {
                assert(b[order[k] as int] == 0);
            } else {
                assert(start[order[k] as int] != 0);
                assert(b[order[k] as int] == start[order[k] as int]);
                assert(s[order[k] as int] == start[order[k] as int]);
            }
        }
        assert(before_within(order, s, b, m));
    }
}

/// Stepping over a given cell, or over a free cell that is empty, changes
/// nothing in which completions lie behind the board.
pub proof fn lemma_region_skip(start: Seq<u8>, order: Seq<u8>, b: Seq<u8>, s: Seq<u8>, k: int)
    requires
        is_visit_order(order),
        is_grid(start),
        extends(b, start),
        is_completion(start, s),
        0 <= k < 81,
    ensures
        !is_free(start, order, k) ==> (upto_within(order, s, b, k) <==> upto_within(
            order,
            s,
            b,
            k + 1,
        )),
        !is_free(start, order, k) ==> (before_within(order, s, b, k) <==> before_within(
            order,
            s,
            b,
            k + 1,
        )),
        is_free(start, order, k) && b[order[k] as int] == 0 ==> (before_within(order, s, b, k)
            <==> upto_within(order, s, b, k + 1)),
{
    let p = order[k] as int;
    assert(order[k] < 81);
    assert(s[p] != 0);
    if !is_free(start, order, k) {
        assert(start[p] != 0);
        assert(s[p] == start[p] && b[p] == start[p]);
    }
    if before_within(order, s, b, k) {
        let j = choose|j: int|
            0 <= j < k && #[trigger] agree_upto(order, s, b, j) && s[order[j] as int]
                < b[order[j] as int];
        assert(before_within(order, s, b, k + 1));
    }
    if before_within(order, s, b, k + 1) {
        let j = choose|j: int|
            0 <= j < k + 1 && #[trigger] agree_upto(order, s, b, j) && s[order[j] as int]
                < b[order[j] as int];
        if j < k {
            assert(before_within(order, s, b, k));
        }
    }
    if agree_upto(order, s, b, k + 1) {
        assert(agree_upto(order, s, b, k));
        assert(s[order[k] as int] == b[order[k] as int]);
    }
    if agree_upto(order, s, b, k) && s[p] == b[p] {
        assert(agree_upto(order, s, b, k + 1));
    }
}

/// A grid agrees below level `k` with both or with neither of two grids that
/// hold the same digits there.
pub proof fn lemma_agree_same_prefix(order: Seq<u8>, s: Seq<u8>, b: Seq<u8>, b2: Seq<u8>, k: int)
    requires
        agree_upto(order, b, b2, k),
    ensures
        agree_upto(order, s, b, k) <==> agree_upto(order, s, b2, k),
{
    if agree_upto(order, s, b, k) {
        assert forall|j: int| 0 <= j < k implies s[#[trigger] order[j] as int] == b2[order[j] as int] by {
            assert(b[order[j] as int] == b2[order[j] as int]);
        }
    }
    if agree_upto(order, s, b2, k) {
        assert forall|j: int| 0 <= j < k implies s[#[trigger] order[j] as int] == b[order[j] as int] by {
            assert(b[order[j] as int] == b2[order[j] as int]);
        }
    }
}

/// Grids that hold the same digits at the levels below `k` stand alike to any
/// third grid there.
pub proof fn lemma_region_same_prefix(
    order: Seq<u8>,
    s: Seq<u8>,
    b: Seq<u8>,
    b2: Seq<u8>,
    k: int,
)
    requires
        0 <= k <= 81,
        agree_upto(order, b, b2, k),
    ensures
        agree_upto(order, s, b, k) <==> agree_upto(order, s, b2, k),
        before_within(order, s, b, k) <==> before_within(order, s, b2, k),
{
    lemma_agree_same_prefix(order, s, b, b2, k);
    if before_within(order, s, b, k) {
        let j = choose|j: int|
            0 <= j < k && #[trigger] agree_upto(order, s, b, j) && s[order[j] as int]
                < b[order[j] as int];
        assert(agree_upto(order, b, b2, j));
        lemma_agree_same_prefix(order, s, b, b2, j);
        assert(b[order[j] as int] == b2[order[j] as int]);
        assert(agree_upto(order, s, b2, j));
    }
    if before_within(order, s, b2, k) {
        let j = choose|j: int|
            0 <= j < k && #[trigger] agree_upto(order, s, b2, j) && s[order[j] as int]
                < b2[order[j] as int];
        assert(agree_upto(order, b, b2, j));
        lemma_agree_same_prefix(order, s, b, b2, j);
        assert(b[order[j] as int] == b2[order[j] as int]);
        assert(agree_upto(order, s, b, j));
    }
}

/// A write into the cell of level `k` leaves the levels below `k` as they were.
pub proof fn lemma_write_keeps_prefix(order: Seq<u8>, b: Seq<u8>, k: int, v: u8)
    requires
        is_visit_order(order),
        b.len() == 81,
        0 <= k < 81,
    ensures
        agree_upto(order, b, b.update(order[k] as int, v), k),
{
    assert forall|j: int| 0 <= j < k implies b[#[trigger] order[j] as int] == b.update(
        order[k] as int,
        v,
    )[order[j] as int] by {
        assert(order[j] != order[k]);
        assert(order[j] < 81);
    }
}

/// A write into the free cell of level `m` changes nothing in what is still
/// to be tried at a level below `m`.
pub proof fn lemma_untried_stable(
    start: Seq<u8>,
    order: Seq<u8>,
    b: Seq<u8>,
    m: int,
    v: u8,
    k: int,
)
    requires
        is_visit_order(order),
        b.len() == 81,
        0 <= k < m < 81,
        is_free(start, order, m),
    ensures
        untried(start, order, b.update(order[m] as int, v), k) == untried(start, order, b, k),
{
    let b2 = b.update(order[m] as int, v);
    assert(order[m] < 81 && order[k] < 81);
    assert(order[k] != order[m]);
    assert forall|j: int|
        0 <= j < 81 && (!is_free(start, order, j) || j < k) implies b[#[trigger] order[j] as int]
        == b2[order[j] as int] by {
        assert(order[j] < 81);
        if j != m {
            assert(order[j] != order[m]);
        }
    }
    assert forall|d: int|
        untried(start, order, b2, k).contains(d) <==> untried(start, order, b, k).contains(d) by {
        lemma_open_at_stable(start, order, b, b2, k, d);
    }
    assert(untried(start, order, b2, k) =~= untried(start, order, b, k));
}

/// Leaving a free level at which nothing is left to try: the completions that
/// lie behind the board stay the same when the level's cell is cleared.
pub proof fn lemma_region_after_clear(
    start: Seq<u8>,
    order: Seq<u8>,
    b: Seq<u8>,
    s: Seq<u8>,
    k: int,
)
    requires
        is_visit_order(order),
        is_grid(start),
        is_grid(b),
        extends(b, start),
        is_completion(start, s),
        0 <= k < 81,
        is_free(start, order, k),
        untried(start, order, b, k) == Set::<int>::empty(),
    ensures
        upto_within(order, s, b.update(order[k] as int, 0u8), k) <==> upto_within(
            order,
            s,
            b,
            k + 1,
        ),
{
    let p = order[k] as int;
    let b2 = b.update(p, 0u8);
    assert(order[k] < 81);
    lemma_write_keeps_prefix(order, b, k, 0u8);
    lemma_region_same_prefix(order, s, b, b2, k);
    if upto_within(order, s, b, k + 1) {
        if before_within(order, s, b, k + 1) {
            let j = choose|j: int|
                0 <= j < k + 1 && #[trigger] agree_upto(order, s, b, j) && s[order[j] as int]
                    < b[order[j] as int];
            if j < k {
                assert(before_within(order, s, b, k));
            }
        } else {
            assert(agree_upto(order, s, b, k));
        }
    }
    if upto_within(order, s, b2, k) {
        if before_within(order, s, b, k) {
            let j = choose|j: int|
                0 <= j < k && #[trigger] agree_upto(order, s, b, j) && s[order[j] as int]
                    < b[order[j] as int];
            assert(before_within(order, s, b, k + 1));
        } else {
            assert(agree_upto(order, s, b, k));
            if s[p] < b[p] {
                assert(before_within(order, s, b, k + 1));
            } else if s[p] == b[p] {
                assert(agree_upto(order, s, b, k + 1));
            } else {
                lemma_completion_digit_is_open(start, order, b, s, k);
                assert(s[p] <= 9);
                assert(untried(start, order, b, k).contains(s[p] as int));
            }
        }
    }
}

/// Taking the smallest digit that is left to try at a free level: what lay
/// behind the board, or agreed with it up to this level, now lies behind it.
pub proof fn lemma_region_after_place(
    start: Seq<u8>,
    order: Seq<u8>,
    b: Seq<u8>,
    s: Seq<u8>,
    k: int,
    d: u8,
)
    requires
        is_visit_order(order),
        is_grid(start),
        is_grid(b),
        extends(b, start),
        is_completion(start, s),
        0 <= k < 81,
        is_free(start, order, k),
        untried(start, order, b, k).contains(d as int),
        forall|e: int| untried(start, order, b, k).contains(e) ==> d <= e,
    ensures
        before_within(order, s, b.update(order[k] as int, d), k + 1) <==> upto_within(
            order,
            s,
            b,
            k + 1,
        ),
{
    let p = order[k] as int;
    let b2 = b.update(p, d);
    assert(order[k] < 81);
    lemma_write_keeps_prefix(order, b, k, d);
    lemma_region_same_prefix(order, s, b, b2, k);
    if upto_within(order, s, b, k + 1) {
        if before_within(order, s, b, k + 1) {
            let j = choose|j: int|
                0 <= j < k + 1 && #[trigger] agree_upto(order, s, b, j) && s[order[j] as int]
                    < b[order[j] as int];
            if j < k {
                assert(before_within(order, s, b, k));
                let j2 = choose|j2: int|
                    0 <= j2 < k && #[trigger] agree_upto(order, s, b2, j2) && s[order[j2] as int]
                        < b2[order[j2] as int];
                assert(before_within(order, s, b2, k + 1));
            } else {
                assert(agree_upto(order, s, b2, k));
                assert(before_within(order, s, b2, k + 1));
            }
        } else {
            assert(agree_upto(order, s, b, k));
            assert(s[p] == b[p]);
            assert(agree_upto(order, s, b2, k));
            assert(before_within(order, s, b2, k + 1));
        }
    }
    if before_within(order, s, b2, k + 1) {
        let j = choose|j: int|
            0 <= j < k + 1 && #[trigger] agree_upto(order, s, b2, j) && s[order[j] as int]
                < b2[order[j] as int];
        if j < k {
            assert(before_within(order, s, b2, k));
            let j2 = choose|j2: int|
                0 <= j2 < k && #[trigger] agree_upto(order, s, b, j2) && s[order[j2] as int]
                    < b[order[j2] as int];
            assert(before_within(order, s, b, k + 1));
        } else {
            assert(agree_upto(order, s, b, k));
            if s[p] < b[p] {
                assert(before_within(order, s, b, k + 1));
            } else if s[p] == b[p] {
                assert(agree_upto(order, s, b, k + 1));
            } else {
                lemma_completion_digit_is_open(start, order, b, s, k);
                assert(untried(start, order, b, k).contains(s[p] as int));
            }
        }
    }
}

/// A completion that agrees with the board at every level is the board.
pub proof fn lemma_agree_everywhere(order: Seq<u8>, s: Seq<u8>, b: Seq<u8>)
    requires
        is_visit_order(order),
        s.len() == 81,
        b.len() == 81,
        agree_upto(order, s, b, 81),
    ensures
        s == b,
{
    assert forall|p: int| 0 <= p < 81 implies s[p] == b[p] by {
        lemma_order_reaches(order, p);
        let k = choose|k: int| 0 <= k < 81 && #[trigger] order[k] == p;
        assert(s[order[k] as int] == b[order[k] as int]);
    }
    assert(s =~= b);
}

} // verus!
