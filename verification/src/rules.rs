//! The rules of the puzzle, stated over a grid of 81 digits in row-major order.
//! A digit 0 stands for an empty cell.

use vstd::prelude::*;

verus! {

/// The three kinds of group in which a digit may occur only once.
pub enum House {
    Row,
    Column,
    Block,
}

/// The row of cell `p`.
pub open spec fn row_of(p: int) -> int {
    p / 9
}

/// The column of cell `p`.
pub open spec fn col_of(p: int) -> int {
    p % 9
}

/// The 3×3 box of cell `p`.
pub open spec fn box_of(p: int) -> int {
    (p / 27) * 3 + (p % 9) / 3
}

/// The number, between 0 and 8, of the house of kind `h` that holds cell `p`.
pub open spec fn house_of(h: House, p: int) -> int {
    match h {
        House::Row => row_of(p),
        House::Column => col_of(p),
        House::Block => box_of(p),
    }
}

/// Whether two cells lie in a common row, column or box.
pub open spec fn same_house(p: int, q: int) -> bool {
    row_of(p) == row_of(q) || col_of(p) == col_of(q) || box_of(p) == box_of(q)
}

/// A grid has 81 cells, each empty or holding a digit from 1 to 9.
pub open spec fn is_grid(g: Seq<u8>) -> bool {
    g.len() == 81 && forall|p: int| 0 <= p < 81 ==> #[trigger] g[p] <= 9
}

/// The grid with every cell empty.
pub open spec fn empty_grid() -> Seq<u8> {
    Seq::new(81, |p: int| 0u8)
}

/// Whether some cell of house `u` of kind `h` holds `d`.
pub open spec fn used_in(g: Seq<u8>, h: House, u: int, d: int) -> bool {
    exists|p: int| 0 <= p < 81 && house_of(h, p) == u && #[trigger] g[p] == d
}

/// The digits that no cell of house `u` of kind `h` holds.
pub open spec fn unused_digits(g: Seq<u8>, h: House, u: int) -> Set<int> {
    Set::new(|d: int| 1 <= d <= 9 && !used_in(g, h, u, d))
}

/// Whether digit `d` occurs nowhere in the row, the column and the box of cell `p`.
pub open spec fn available(g: Seq<u8>, p: int, d: int) -> bool {
    &&& 1 <= d <= 9
    &&& !used_in(g, House::Row, row_of(p), d)
    &&& !used_in(g, House::Column, col_of(p), d)
    &&& !used_in(g, House::Block, box_of(p), d)
}

/// Whether another cell in a house of cell `p` holds the same value as `p`.
pub open spec fn has_twin(g: Seq<u8>, p: int) -> bool {
    exists|q: int| 0 <= q < 81 && q != p && same_house(p, q) && #[trigger] g[q] == g[p]
}

/// No digit occurs twice in a row, a column or a box.
pub open spec fn consistent(g: Seq<u8>) -> bool {
    forall|p: int| 0 <= p < 81 && #[trigger] g[p] != 0 ==> !has_twin(g, p)
}

/// No cell is empty.
pub open spec fn complete(g: Seq<u8>) -> bool {
    forall|p: int| 0 <= p < 81 ==> #[trigger] g[p] != 0
}

/// Every row, column and box holds each digit from 1 to 9 once.
pub open spec fn solved(g: Seq<u8>) -> bool {
    is_grid(g) && complete(g) && consistent(g)
}

/// Whether `s` keeps every digit that `g` holds.
pub open spec fn extends(s: Seq<u8>, g: Seq<u8>) -> bool {
    forall|p: int| 0 <= p < 81 && #[trigger] g[p] != 0 ==> s[p] == g[p]
}

/// Whether `s` fills the empty cells of `start`, none of the filled-in digits
/// occurring a second time in its row, column or box. This is what a search
/// from `start` can reach, whether or not the given digits of `start` collide
/// among themselves.
pub open spec fn is_completion(start: Seq<u8>, s: Seq<u8>) -> bool {
    &&& is_grid(s)
    &&& complete(s)
    &&& extends(s, start)
    &&& forall|p: int| 0 <= p < 81 && #[trigger] start[p] == 0 ==> !has_twin(s, p)
}

/// Writing `v` into cell `pos` changes which digits are used only in the houses
/// of `pos`, and there only for the digit that left and the digit that came.
pub proof fn lemma_used_after_write(g: Seq<u8>, pos: int, v: u8, h: House, u: int, d: int)
    requires
        g.len() == 81,
        0 <= pos < 81,
    ensures
        house_of(h, pos) != u ==> (used_in(g.update(pos, v), h, u, d) <==> used_in(g, h, u, d)),
        house_of(h, pos) == u && d == v ==> used_in(g.update(pos, v), h, u, d),
        house_of(h, pos) == u && d != v && d != g[pos] ==> (used_in(g.update(pos, v), h, u, d)
            <==> used_in(g, h, u, d)),
        house_of(h, pos) == u && d != v && d == g[pos] && !has_twin(g, pos) ==> !used_in(
            g.update(pos, v),
            h,
            u,
            d,
        ),
{
    let g2 = g.update(pos, v);
    if used_in(g, h, u, d) {
        let p = choose|p: int| 0 <= p < 81 && house_of(h, p) == u && #[trigger] g[p] == d;
        if p != pos {
            assert(g2[p] == d);
        }
    }
    if used_in(g2, h, u, d) {
        let p = choose|p: int| 0 <= p < 81 && house_of(h, p) == u && #[trigger] g2[p] == d;
        if p != pos {
            assert(g[p] == d);
            if house_of(h, pos) == u && d == g[pos] {
                assert(same_house(pos, p));
                assert(has_twin(g, pos));
            }
        }
    }
    if house_of(h, pos) == u && d == v {
        assert(g2[pos] == d);
    }
}

/// In an empty grid every digit is unused in every house.
pub proof fn lemma_empty_grid_unused(h: House, u: int)
    ensures
        unused_digits(empty_grid(), h, u) == crate::candidates::all_digits(),
{
    assert forall|d: int| 1 <= d <= 9 implies !used_in(empty_grid(), h, u, d) by {
        if used_in(empty_grid(), h, u, d) {
            let p = choose|p: int|
                0 <= p < 81 && house_of(h, p) == u && #[trigger] empty_grid()[p] == d;
            assert(empty_grid()[p] == 0);
        }
    }
    assert(unused_digits(empty_grid(), h, u) =~= crate::candidates::all_digits());
}

/// For a cell that is empty, a digit is available exactly when no cell that
/// shares a house with it holds that digit.
pub proof fn lemma_available_iff_no_holder(g: Seq<u8>, p: int, d: int)
    requires
        g.len() == 81,
        0 <= p < 81,
        1 <= d <= 9,
    ensures
        available(g, p, d) <==> (forall|q: int|
            0 <= q < 81 && same_house(p, q) ==> #[trigger] g[q] != d),
{
    if available(g, p, d) {
        assert forall|q: int| 0 <= q < 81 && same_house(p, q) implies #[trigger] g[q] != d by {
            if g[q] == d {
                if row_of(p) == row_of(q) {
                    assert(house_of(House::Row, q) == row_of(p));
                    assert(used_in(g, House::Row, row_of(p), d));
                } else if col_of(p) == col_of(q) {
                    assert(house_of(House::Column, q) == col_of(p));
                    assert(used_in(g, House::Column, col_of(p), d));
                } else {
                    assert(house_of(House::Block, q) == box_of(p));
                    assert(used_in(g, House::Block, box_of(p), d));
                }
            }
        }
    }
    if forall|q: int| 0 <= q < 81 && same_house(p, q) ==> #[trigger] g[q] != d {
        if used_in(g, House::Row, row_of(p), d) {
            let q = choose|q: int|
                0 <= q < 81 && house_of(House::Row, q) == row_of(p) && #[trigger] g[q] == d;
            assert(same_house(p, q));
        }
        if used_in(g, House::Column, col_of(p), d) {
            let q = choose|q: int|
                0 <= q < 81 && house_of(House::Column, q) == col_of(p) && #[trigger] g[q] == d;
            assert(same_house(p, q));
        }
        if used_in(g, House::Block, box_of(p), d) {
            let q = choose|q: int|
                0 <= q < 81 && house_of(House::Block, q) == box_of(p) && #[trigger] g[q] == d;
            assert(same_house(p, q));
        }
    }
}

/// From a start without collisions, the completions are the solved grids that
/// keep the given digits.
pub proof fn lemma_completions_are_solutions(start: Seq<u8>, s: Seq<u8>)
    requires
        is_grid(start),
        consistent(start),
    ensures
        is_completion(start, s) <==> (solved(s) && extends(s, start)),
{
    if is_completion(start, s) {
        assert forall|p: int| 0 <= p < 81 && #[trigger] s[p] != 0 implies !has_twin(s, p) by {
            if has_twin(s, p) {
                let q = choose|q: int|
                    0 <= q < 81 && q != p && same_house(p, q) && #[trigger] s[q] == s[p];
                if start[p] == 0 {
                    assert(!has_twin(s, p));
                } else if start[q] == 0 {
                    assert(same_house(q, p));
                    assert(s[p] == s[q]);
                    assert(has_twin(s, q));
                } else {
                    assert(start[p] != 0 && start[q] != 0);
                    assert(start[q] == start[p]);
                    assert(has_twin(start, p));
                }
            }
        }
    }
    if solved(s) && extends(s, start) {
        assert forall|p: int| 0 <= p < 81 && #[trigger] start[p] == 0 implies !has_twin(s, p) by {
            assert(s[p] != 0);
        }
    }
}

/// Cell number `j` of house `u` of kind `h`, for `j` and `u` from 0 to 8.
pub open spec fn house_cell(h: House, u: int, j: int) -> int {
    match h {
        House::Row => u * 9 + j,
        House::Column => j * 9 + u,
        House::Block => (u / 3) * 27 + (u % 3) * 3 + (j / 3) * 9 + j % 3,
    }
}

/// The nine digits of house `u` of kind `h`.
pub open spec fn house_digits(g: Seq<u8>, h: House, u: int) -> Seq<u8> {
    Seq::new(9, |j: int| g[house_cell(h, u, j)])
}

/// Nine digits that hold each of 1 to 9 once: none is 0, none occurs twice.
pub open spec fn is_digit_permutation(group: Seq<u8>) -> bool {
    &&& group.len() == 9
    &&& forall|k: int| 0 <= k < 9 ==> 1 <= #[trigger] group[k] <= 9
    &&& forall|j: int, k: int| 0 <= j < k < 9 ==> #[trigger] group[j] != #[trigger] group[k]
}

/// Whether digit `d` occurs in the group.
pub open spec fn occurs_in(group: Seq<u8>, d: int) -> bool {
    exists|k: int| 0 <= k < 9 && #[trigger] group[k] == d
}

/// Whether each digit from 1 to 9 occurs in the group.
pub open spec fn covers_digits(group: Seq<u8>) -> bool {
    forall|d: int| 1 <= d <= 9 ==> #[trigger] occurs_in(group, d)
}

/// Nine digits between 1 and 9 hold each digit once exactly when each digit
/// occurs among them.
pub proof fn lemma_permutation_iff_covers(group: Seq<u8>)
    requires
        group.len() == 9,
        forall|k: int| 0 <= k < 9 ==> 1 <= #[trigger] group[k] <= 9,
    ensures
        is_digit_permutation(group) <==> covers_digits(group),
{
    let s = Seq::new(9, |k: int| group[k] as int);
    let range = vstd::set_lib::set_int_range(1, 10);
    vstd::set_lib::lemma_int_range(1, 10);
    vstd::seq_lib::seq_to_set_is_finite(s);
    assert(s.to_set().subset_of(range)) by {
        assert forall|x: int| s.to_set().contains(x) implies range.contains(x) by {
            let i = choose|i: int| 0 <= i < s.len() && s[i] == x;
            assert(1 <= group[i] <= 9);
        }
    }
    if is_digit_permutation(group) {
        assert(s.no_duplicates()) by {
            assert forall|i: int, j: int|
                0 <= i < s.len() && 0 <= j < s.len() && i != j implies s[i] != s[j] by {
                if i < j {
                    assert(group[i] != group[j]);
                } else {
                    assert(group[j] != group[i]);
                }
            }
        }
        s.unique_seq_to_set();
        vstd::set_lib::lemma_subset_equality(s.to_set(), range);
        assert forall|d: int| 1 <= d <= 9 implies #[trigger] occurs_in(group, d) by {
            assert(range.contains(d));
            assert(s.to_set().contains(d));
            let k = choose|k: int| 0 <= k < s.len() && s[k] == d;
            assert(group[k] == d);
        }
    }
    if covers_digits(group) {
        assert(range.subset_of(s.to_set())) by {
            assert forall|x: int| range.contains(x) implies s.to_set().contains(x) by {
                assert(occurs_in(group, x));
                let k = choose|k: int| 0 <= k < 9 && #[trigger] group[k] == x;
                assert(s[k] == x);
            }
        }
        vstd::set_lib::lemma_len_subset(range, s.to_set());
        s.lemma_cardinality_of_set();
        s.lemma_no_dup_set_cardinality();
        assert forall|j: int, k: int| 0 <= j < k < 9 implies #[trigger] group[j]
            != #[trigger] group[k] by {
            assert(s[j] != s[k]);
        }
    }
}

/// Where a cell stands in its house.
pub open spec fn place_in_house(h: House, p: int) -> int {
    match h {
        House::Row => p % 9,
        House::Column => p / 9,
        House::Block => ((p / 9) % 3) * 3 + p % 3,
    }
}

/// Houses and their cells: cell `j` of house `u` lies in house `u`, and every
/// cell is the cell of its house that stands at its place.
pub proof fn lemma_house_cells(h: House, u: int, j: int, p: int)
    requires
        0 <= u < 9,
        0 <= j < 9,
        0 <= p < 81,
    ensures
        0 <= house_cell(h, u, j) < 81,
        house_of(h, house_cell(h, u, j)) == u,
        place_in_house(h, house_cell(h, u, j)) == j,
        0 <= house_of(h, p) < 9,
        0 <= place_in_house(h, p) < 9,
        house_cell(h, house_of(h, p), place_in_house(h, p)) == p,
{
    match h {
        House::Row => {},
        House::Column => {},
        House::Block => {
            lemma_block_cell(u, j);
            lemma_block_of_cell(p);
        },
    }
}

proof fn lemma_block_cell(u: int, j: int)
    requires
        0 <= u < 9,
        0 <= j < 9,
    ensures
        0 <= house_cell(House::Block, u, j) < 81,
        box_of(house_cell(House::Block, u, j)) == u,
        place_in_house(House::Block, house_cell(House::Block, u, j)) == j,
{
    let a = u / 3;
    let b = u % 3;
    let x = j / 3;
    let y = j % 3;
    let c = a * 27 + b * 3 + x * 9 + y;
    assert(c == house_cell(House::Block, u, j));
    assert(0 <= a < 3 && 0 <= b < 3 && 0 <= x < 3 && 0 <= y < 3);
    assert(u == a * 3 + b);
    assert(j == x * 3 + y);
    assert(c == 27 * a + (3 * b + 9 * x + y));
    assert(c / 27 == a);
    assert(c == 9 * (3 * a + x) + (3 * b + y));
    assert(c / 9 == 3 * a + x);
    assert(c % 9 == 3 * b + y);
    assert((c % 9) / 3 == b);
    assert((c / 9) % 3 == x);
    assert(c == 3 * (9 * a + b + 3 * x) + y);
    assert(c % 3 == y);
}

proof fn lemma_block_of_cell(p: int)
    requires
        0 <= p < 81,
    ensures
        0 <= box_of(p) < 9,
        0 <= place_in_house(House::Block, p) < 9,
        house_cell(House::Block, box_of(p), place_in_house(House::Block, p)) == p,
{
    let r = p / 9;
    let c = p % 9;
    assert(p == 9 * r + c);
    assert(0 <= r < 9 && 0 <= c < 9);
    let a = r / 3;
    let x = r % 3;
    assert(r == 3 * a + x);
    assert(p == 27 * a + (9 * x + c));
    assert(p / 27 == a);
    let b = c / 3;
    let y = c % 3;
    assert(c == 3 * b + y);
    assert(p == 3 * (3 * r + b) + y);
    assert(p % 3 == y);
    let u = box_of(p);
    assert(u == a * 3 + b);
    let j = place_in_house(House::Block, p);
    assert(j == x * 3 + y);
    assert(u / 3 == a && u % 3 == b);
    assert(j / 3 == x && j % 3 == y);
}

/// A grid is solved exactly when each of its rows, columns and boxes holds
/// each digit once.
pub proof fn lemma_solved_iff_houses(g: Seq<u8>)
    requires
        is_grid(g),
    ensures
        solved(g) <==> (forall|h: House, u: int|
            0 <= u < 9 ==> is_digit_permutation(#[trigger] house_digits(g, h, u))),
{
    if solved(g) {
        assert forall|h: House, u: int| 0 <= u < 9 implies is_digit_permutation(
            #[trigger] house_digits(g, h, u),
        ) by {
            let group = house_digits(g, h, u);
            assert forall|k: int| 0 <= k < 9 implies 1 <= #[trigger] group[k] <= 9 by {
                lemma_house_cells(h, u, k, 0);
                assert(g[house_cell(h, u, k)] != 0);
            }
            assert forall|j: int, k: int| 0 <= j < k < 9 implies #[trigger] group[j]
                != #[trigger] group[k] by {
                lemma_house_cells(h, u, j, 0);
                lemma_house_cells(h, u, k, 0);
                let p = house_cell(h, u, j);
                let q = house_cell(h, u, k);
                assert(p != q);
                assert(same_house(p, q));
                if g[p] == g[q] {
                    assert(g[p] != 0);
                    assert(has_twin(g, p));
                }
            }
        }
    }
    if forall|h: House, u: int|
        0 <= u < 9 ==> is_digit_permutation(#[trigger] house_digits(g, h, u)) {
        assert forall|p: int| 0 <= p < 81 implies #[trigger] g[p] != 0 by {
            lemma_house_cells(House::Row, 0, 0, p);
            let group = house_digits(g, House::Row, house_of(House::Row, p));
            assert(is_digit_permutation(group));
            assert(group[place_in_house(House::Row, p)] == g[p]);
        }
        assert forall|p: int| 0 <= p < 81 && #[trigger] g[p] != 0 implies !has_twin(g, p) by {
            if has_twin(g, p) {
                let q = choose|q: int|
                    0 <= q < 81 && q != p && same_house(p, q) && #[trigger] g[q] == g[p];
                let h = if row_of(p) == row_of(q) {
                    House::Row
                } else if col_of(p) == col_of(q) {
                    House::Column
                } else {
                    House::Block
                };
                lemma_house_cells(h, 0, 0, p);
                lemma_house_cells(h, 0, 0, q);
                let u = house_of(h, p);
                assert(house_of(h, q) == u);
                let group = house_digits(g, h, u);
                assert(is_digit_permutation(group));
                let i = place_in_house(h, p);
                let j = place_in_house(h, q);
                assert(group[i] == g[p]);
                assert(group[j] == g[q]);
                assert(i != j);
                if i < j {
                    assert(group[i] != group[j]);
                } else {
                    assert(group[j] != group[i]);
                }
            }
        }
    }
}

} // verus!
