//! Visit orders: the sequence in which a search fills the cells, and the order
//! that it gives to grids.

use crate::rules::is_grid;
use vstd::prelude::*;

verus! {

/// A visit order names each of the 81 cells once: entry `k` is the cell that
/// is filled at level `k`.
pub open spec fn is_visit_order(order: Seq<u8>) -> bool {
    &&& order.len() == 81
    &&& forall|k: int| 0 <= k < 81 ==> #[trigger] order[k] < 81
    &&& forall|j: int, k: int|
        0 <= j < 81 && 0 <= k < 81 && j != k ==> #[trigger] order[j] != #[trigger] order[k]
}

/// The order that visits the cells by their index.
pub open spec fn natural_order() -> Seq<u8> {
    Seq::new(81, |k: int| k as u8)
}

/// Whether `a` and `b` hold the same digits in the cells of the first `k` levels.
pub open spec fn agree_upto(order: Seq<u8>, a: Seq<u8>, b: Seq<u8>, k: int) -> bool {
    forall|j: int| 0 <= j < k ==> a[#[trigger] order[j] as int] == b[order[j] as int]
}

/// Whether, within the first `m` levels, `a` comes before `b`: at the first
/// level where they differ, `a` holds the smaller digit.
pub open spec fn before_within(order: Seq<u8>, a: Seq<u8>, b: Seq<u8>, m: int) -> bool {
    exists|k: int|
        0 <= k < m && #[trigger] agree_upto(order, a, b, k) && a[order[k] as int]
            < b[order[k] as int]
}

/// Whether, within the first `m` levels, `a` comes before `b` or agrees with it.
pub open spec fn upto_within(order: Seq<u8>, a: Seq<u8>, b: Seq<u8>, m: int) -> bool {
    before_within(order, a, b, m) || agree_upto(order, a, b, m)
}

/// Whether a search along `order` comes to `a` before it comes to `b`. An
/// empty cell counts as digit 0.
pub open spec fn visits_before(order: Seq<u8>, a: Seq<u8>, b: Seq<u8>) -> bool {
    before_within(order, a, b, 81)
}

/// The first `n` levels of `g` read as a decimal number, level 0 first.
pub open spec fn key(order: Seq<u8>, g: Seq<u8>, n: int) -> int
    decreases n,
{
    if n <= 0 {
        0
    } else {
        key(order, g, n - 1) * 10 + g[order[n - 1] as int]
    }
}

/// Ten to the power `n`.
pub open spec fn key_limit(n: int) -> int
    decreases n,
{
    if n <= 0 {
        1
    } else {
        key_limit(n - 1) * 10
    }
}

/// A visit order reaches every cell.
pub proof fn lemma_order_reaches(order: Seq<u8>, p: int)
    requires
        is_visit_order(order),
        0 <= p < 81,
    ensures
        exists|k: int| 0 <= k < 81 && #[trigger] order[k] == p,
{
    let s = Seq::new(81, |k: int| order[k] as int);
    assert(s.no_duplicates()) by {
        assert forall|i: int, j: int| 0 <= i < s.len() && 0 <= j < s.len() && i != j implies s[i]
            != s[j] by {
            assert(order[i] != order[j]);
        }
    }
    s.unique_seq_to_set();
    let range = vstd::set_lib::set_int_range(0, 81);
    vstd::set_lib::lemma_int_range(0, 81);
    vstd::seq_lib::seq_to_set_is_finite(s);
    assert(s.to_set().subset_of(range)) by {
        assert forall|x: int| s.to_set().contains(x) implies range.contains(x) by {
            let i = choose|i: int| 0 <= i < s.len() && s[i] == x;
            assert(order[i] < 81);
        }
    }
    vstd::set_lib::lemma_subset_equality(s.to_set(), range);
    assert(range.contains(p));
    assert(s.to_set().contains(p));
    let k = choose|k: int| 0 <= k < s.len() && s[k] == p;
    assert(order[k] == p);
}

/// The key of a grid stays below its limit.
pub proof fn lemma_key_bound(order: Seq<u8>, g: Seq<u8>, n: int)
    requires
        is_visit_order(order),
        is_grid(g),
        0 <= n <= 81,
    ensures
        0 <= key(order, g, n) < key_limit(n),
    decreases n,
{
    if n > 0 {
        lemma_key_bound(order, g, n - 1);
        assert(order[n - 1] < 81);
        assert(g[order[n - 1] as int] <= 9);
    }
}

/// Grids that agree on the first levels have the same key there.
pub proof fn lemma_key_agree(order: Seq<u8>, a: Seq<u8>, b: Seq<u8>, k: int)
    requires
        agree_upto(order, a, b, k),
        0 <= k <= 81,
    ensures
        key(order, a, k) == key(order, b, k),
    decreases k,
{
    if k > 0 {
        assert(agree_upto(order, a, b, k - 1));
        lemma_key_agree(order, a, b, k - 1);
        assert(a[order[k - 1] as int] == b[order[k - 1] as int]);
    }
}

/// A smaller key at some level stays smaller at every later level.
pub proof fn lemma_key_stays_less(order: Seq<u8>, a: Seq<u8>, b: Seq<u8>, m: int, n: int)
    requires
        is_visit_order(order),
        is_grid(a),
        is_grid(b),
        0 <= m <= n <= 81,
        key(order, a, m) < key(order, b, m),
    ensures
        key(order, a, n) < key(order, b, n),
    decreases n - m,
{
    if m < n {
        lemma_key_stays_less(order, a, b, m, n - 1);
        assert(order[n - 1] < 81);
        assert(a[order[n - 1] as int] <= 9);
        assert(b[order[n - 1] as int] <= 9);
    }
}

/// The grid that a search visits first has the smaller key.
pub proof fn lemma_before_has_smaller_key(order: Seq<u8>, a: Seq<u8>, b: Seq<u8>)
    requires
        is_visit_order(order),
        is_grid(a),
        is_grid(b),
        visits_before(order, a, b),
    ensures
        key(order, a, 81) < key(order, b, 81),
{
    let k = choose|k: int|
        0 <= k < 81 && #[trigger] agree_upto(order, a, b, k) && a[order[k] as int]
            < b[order[k] as int];
    lemma_key_agree(order, a, b, k);
    assert(key(order, a, k + 1) < key(order, b, k + 1));
    lemma_key_stays_less(order, a, b, k + 1, 81);
}

/// No grid is visited before itself, and of two grids that differ one is
/// visited before the other.
pub proof fn lemma_visits_total(order: Seq<u8>, a: Seq<u8>, b: Seq<u8>)
    requires
        is_visit_order(order),
        is_grid(a),
        is_grid(b),
    ensures
        !visits_before(order, a, a),
        a != b ==> visits_before(order, a, b) || visits_before(order, b, a),
        !(visits_before(order, a, b) && visits_before(order, b, a)),
{
    if visits_before(order, a, a) {
        lemma_before_has_smaller_key(order, a, a);
    }
    if visits_before(order, a, b) && visits_before(order, b, a) {
        lemma_before_has_smaller_key(order, a, b);
        lemma_before_has_smaller_key(order, b, a);
    }
    if a != b {
        lemma_first_difference(order, a, b, 81);
        if agree_upto(order, a, b, 81) {
            assert forall|p: int| 0 <= p < 81 implies a[p] == b[p] by {
                lemma_order_reaches(order, p);
                let k = choose|k: int| 0 <= k < 81 && #[trigger] order[k] == p;
                assert(a[order[k] as int] == b[order[k] as int]);
            }
            assert(a =~= b);
        }
    }
}

/// Within the first `m` levels two grids agree, or one comes before the other.
pub proof fn lemma_first_difference(order: Seq<u8>, a: Seq<u8>, b: Seq<u8>, m: int)
    requires
        0 <= m <= 81,
    ensures
        agree_upto(order, a, b, m) || before_within(order, a, b, m) || before_within(
            order,
            b,
            a,
            m,
        ),
    decreases m,
{
    if m > 0 {
        lemma_first_difference(order, a, b, m - 1);
        if agree_upto(order, a, b, m - 1) {
            let x = a[order[m - 1] as int];
            let y = b[order[m - 1] as int];
            if x < y {
                assert(before_within(order, a, b, m));
            } else if y < x {
                assert(agree_upto(order, b, a, m - 1));
                assert(before_within(order, b, a, m));
            } else {
                assert(agree_upto(order, a, b, m));
            }
        } else if before_within(order, a, b, m - 1) {
            let k = choose|k: int|
                0 <= k < m - 1 && #[trigger] agree_upto(order, a, b, k) && a[order[k] as int]
                    < b[order[k] as int];
            assert(before_within(order, a, b, m));
        } else {
            let k = choose|k: int|
                0 <= k < m - 1 && #[trigger] agree_upto(order, b, a, k) && b[order[k] as int]
                    < a[order[k] as int];
            assert(before_within(order, b, a, m));
        }
    }
}

} // verus!
