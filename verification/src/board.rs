//! The board: 81 cells packed two to a byte, and for every row, column and box
//! the set of digits that it does not hold yet, kept up to date on every write.

use crate::candidates::CandidateSet;
use crate::rules::{
    available, box_of, col_of, covers_digits, empty_grid, has_twin, house_cell, house_digits,
    house_of, is_digit_permutation, is_grid, lemma_empty_grid_unused, lemma_house_cells,
    lemma_permutation_iff_covers, lemma_solved_iff_houses, lemma_used_after_write, occurs_in,
    row_of, same_house, solved, unused_digits, House,
};
use vstd::prelude::*;
use vstd::std_specs::cmp::PartialEqSpecImpl;

verus! {

/// The digit of cell `p` in a packed grid: the low half of byte `p / 2` for an
/// even cell, the high half for an odd one.
pub open spec fn packed_digit(bytes: Seq<u8>, p: int) -> u8 {
    if p % 2 == 1 {
        bytes[p / 2] >> 4
    } else {
        bytes[p / 2] & 0xF
    }
}

/// The 81 digits that 41 packed bytes hold.
pub open spec fn unpack(bytes: Seq<u8>) -> Seq<u8> {
    Seq::new(81, |p: int| packed_digit(bytes, p))
}

proof fn lemma_index_halves(index: u8)
    by (bit_vector)
    ensures
        index >> 1 == index / 2,
        (index & 1 == 1) <==> (index % 2 == 1),
{
}

proof fn lemma_write_high(pair: u8, val: u8)
    by (bit_vector)
    requires
        val <= 15,
    ensures
        ((pair & 0xF) | (val << 4)) >> 4 == val,
        ((pair & 0xF) | (val << 4)) & 0xF == pair & 0xF,
{
}

proof fn lemma_write_low(pair: u8, val: u8)
    by (bit_vector)
    requires
        val <= 15,
    ensures
        ((pair & 0xF0) | val) & 0xF == val,
        ((pair & 0xF0) | val) >> 4 == pair >> 4,
{
}

proof fn lemma_halves_of_zero()
    by (bit_vector)
    ensures
        0u8 >> 4 == 0,
        0u8 & 0xF == 0,
{
}

proof fn lemma_halves_determine(a: u8, b: u8)
    by (bit_vector)
    requires
        a >> 4 == b >> 4,
        a & 0xF == b & 0xF,
    ensures
        a == b,
{
}

/// A Sudoku board.
#[derive(Clone, Copy, Debug)]
pub struct Sudoku {
    grid: [u8; 41],
    row_candidates: [CandidateSet; 9],
    col_candidates: [CandidateSet; 9],
    grid_candidates: [CandidateSet; 9],
}

impl View for Sudoku {
    type V = Seq<u8>;

    /// The 81 digits of the board in row-major order, 0 for an empty cell.
    open spec fn view(&self) -> Seq<u8> {
        Seq::new(81, |p: int| self.digit_at(p))
    }
}

impl Sudoku {
    /// The digit held in cell `p`.
    pub closed spec fn digit_at(&self, p: int) -> u8 {
        packed_digit(self.grid@, p)
    }

    /// The candidate set kept for house `u` of kind `h`.
    pub closed spec fn candidates(&self, h: House, u: int) -> CandidateSet {
        match h {
            House::Row => self.row_candidates[u],
            House::Column => self.col_candidates[u],
            House::Block => self.grid_candidates[u],
        }
    }

    /// The half byte that holds no cell is zero.
    pub closed spec fn spare_is_zero(&self) -> bool {
        self.grid[40] >> 4 == 0
    }

    /// The board holds digits only, and its candidate sets hold digits only.
    pub open spec fn wf(&self) -> bool {
        &&& is_grid(self@)
        &&& self.spare_is_zero()
        &&& forall|h: House, u: int| 0 <= u < 9 ==> (#[trigger] self.candidates(h, u)).wf()
    }

    /// Every candidate set holds exactly the digits that its house does not
    /// hold: what a scan of the cells would give.
    pub open spec fn in_sync(&self) -> bool {
        forall|h: House, u: int|
            0 <= u < 9 ==> (#[trigger] self.candidates(h, u))@ == unused_digits(self@, h, u)
    }

    /// The candidate set that house `u` of kind `h` has after `new` is written
    /// over `old` in cell `pos`, when it was `before`: in the houses of `pos`
    /// the digit that leaves comes back, then the digit that comes is taken out.
    pub open spec fn toggled(before: Set<int>, h: House, u: int, pos: int, old: u8, new: u8) -> Set<
        int,
    > {
        if house_of(h, pos) == u {
            let vacated = if old != 0 {
                before.insert(old as int)
            } else {
                before
            };
            if new != 0 {
                vacated.remove(new as int)
            } else {
                vacated
            }
        } else {
            before
        }
    }

    /// Two boards with the same digits, both with their candidate sets in
    /// sync, are the same value.
    pub proof fn lemma_determined_by_digits(&self, other: &Sudoku)
        requires
            self.wf(),
            self.in_sync(),
            other.wf(),
            other.in_sync(),
            self@ == other@,
        ensures
            *self == *other,
    {
        assert forall|k: int| 0 <= k < 41 implies self.grid[k] == other.grid[k] by {
            let a = self.grid[k];
            let b = other.grid[k];
            assert(self@[2 * k] == self.digit_at(2 * k));
            if k < 40 {
                assert(self@[2 * k + 1] == self.digit_at(2 * k + 1));
            }
            lemma_halves_determine(a, b);
        }
        assert(self.grid =~= other.grid);
        assert forall|u: int| 0 <= u < 9 implies self.row_candidates[u]
            == other.row_candidates[u] by {
            let a = self.candidates(House::Row, u);
            let b = other.candidates(House::Row, u);
            a.lemma_extensional(b);
        }
        assert(self.row_candidates =~= other.row_candidates);
        assert forall|u: int| 0 <= u < 9 implies self.col_candidates[u]
            == other.col_candidates[u] by {
            let a = self.candidates(House::Column, u);
            let b = other.candidates(House::Column, u);
            a.lemma_extensional(b);
        }
        assert(self.col_candidates =~= other.col_candidates);
        assert forall|u: int| 0 <= u < 9 implies self.grid_candidates[u]
            == other.grid_candidates[u] by {
            let a = self.candidates(House::Block, u);
            let b = other.candidates(House::Block, u);
            a.lemma_extensional(b);
        }
        assert(self.grid_candidates =~= other.grid_candidates);
    }

    /// The empty board.
    pub fn new() -> (r: Sudoku)
        ensures
            r.wf(),
            r.in_sync(),
            r@ == empty_grid(),
    {
        let r = Sudoku {
            grid: [0;41],
            row_candidates: [CandidateSet::new();9],
            col_candidates: [CandidateSet::new();9],
            grid_candidates: [CandidateSet::new();9],
        };
        proof {
            lemma_halves_of_zero();
            assert forall|h: House, u: int| 0 <= u < 9 implies (#[trigger] r.candidates(h, u)).wf()
                && r.candidates(h, u)@ == unused_digits(r@, h, u) by {
                lemma_empty_grid_unused(h, u);
            }
        }
        r
    }

    /// The digit in cell `index`, 0 when the cell is empty.
    pub fn get(&self, index: u8) -> (r: u8)
        requires
            index < 81,
        ensures
            r == self@[index as int],
    {
        proof {
            lemma_index_halves(index);
        }
        let val = self.grid[(index >> 1) as usize];
        if index & 1 == 1 {
            val >> 4
        } else {
            val & 0b1111
        }
    }

    /// Whether cell `index` is empty.
    pub fn is_missing(&self, index: u8) -> (r: bool)
        requires
            index < 81,
        ensures
            r == (self@[index as int] == 0),
    {
        self.get(index) == 0
    }

    /// Whether `after` is what a write of `val` into cell `pos` makes of
    /// `before`: the cell holds `val`, and the candidate sets of its houses are
    /// toggled for the digit that left and the digit that came.
    pub open spec fn is_write(before: &Sudoku, after: &Sudoku, pos: int, val: u8) -> bool {
        &&& after@ == before@.update(pos, val)
        &&& forall|h: House, u: int|
            0 <= u < 9 ==> (#[trigger] after.candidates(h, u))@ == Self::toggled(
                before.candidates(h, u)@,
                h,
                u,
                pos,
                before@[pos],
                val,
            )
    }

    /// Whether a write of `val` into cell `pos` keeps the candidate sets true:
    /// the digit that it overwrites, if any, stands in no other cell of the
    /// same row, column or box.
    pub open spec fn is_clean_write(before: &Sudoku, pos: int, val: u8) -> bool {
        before@[pos] == 0 || before@[pos] == val || !has_twin(before@, pos)
    }

    /// The digits that the candidate sets allow in cell `p`: those in the sets
    /// of its column, its row and its box.
    pub open spec fn allowed_at(&self, p: int) -> Set<int> {
        self.candidates(House::Column, col_of(p))@.intersect(
            self.candidates(House::Row, row_of(p))@,
        ).intersect(self.candidates(House::Block, box_of(p))@)
    }

    /// A clean write into a board in sync leaves a board in sync.
    pub proof fn lemma_write_keeps_sync(before: &Sudoku, after: &Sudoku, pos: int, val: u8)
        requires
            is_grid(before@),
            before.in_sync(),
            0 <= pos < 81,
            val <= 9,
            Self::is_write(before, after, pos, val),
            Self::is_clean_write(before, pos, val),
        ensures
            after.in_sync(),
    {
        assert forall|h: House, u: int| 0 <= u < 9 implies (#[trigger] after.candidates(h, u))@
            == unused_digits(after@, h, u) by {
            let now = after.candidates(h, u)@;
            assert forall|d: int| now.contains(d) <==> unused_digits(after@, h, u).contains(d) by {
                lemma_used_after_write(before@, pos, val, h, u, d);
            }
        }
    }

    /// However many writes are made, one after another, the candidate sets
    /// that they maintain are those that a scan of the cells gives, as long
    /// as the first board is in sync and each write is clean. `boards[i + 1]`
    /// is the board after write `i`, which puts `writes[i].1` into cell
    /// `writes[i].0`.
    pub proof fn lemma_writes_keep_sync(boards: Seq<Sudoku>, writes: Seq<(int, u8)>)
        requires
            boards.len() == writes.len() + 1,
            boards[0].in_sync(),
            forall|i: int| 0 <= i < boards.len() ==> is_grid(#[trigger] boards[i]@),
            forall|i: int|
                0 <= i < writes.len() ==> {
                    &&& 0 <= (#[trigger] writes[i]).0 < 81
                    &&& writes[i].1 <= 9
                    &&& Self::is_write(&boards[i], &boards[i + 1], writes[i].0, writes[i].1)
                    &&& Self::is_clean_write(&boards[i], writes[i].0, writes[i].1)
                },
        ensures
            forall|i: int| 0 <= i < boards.len() ==> (#[trigger] boards[i]).in_sync(),
        decreases writes.len(),
    {
        if writes.len() > 0 {
            let n = writes.len() - 1;
            Self::lemma_writes_keep_sync(boards.drop_last(), writes.drop_last());
            assert(boards.drop_last()[n] == boards[n]);
            let w = writes[n];
            Self::lemma_write_keeps_sync(&boards[n], &boards[n + 1], w.0, w.1);
            assert forall|i: int| 0 <= i < boards.len() implies (#[trigger] boards[i]).in_sync() by {
                if i <= n {
                    assert(boards.drop_last()[i] == boards[i]);
                }
            }
        }
    }

    /// While the board is in sync, no digit that stands in a cell is allowed
    /// in another cell of the same row, column or box.
    pub proof fn lemma_allowed_excludes_present(&self, p: int, q: int)
        requires
            self.in_sync(),
            0 <= p < 81,
            0 <= q < 81,
            same_house(p, q),
            self@[q] != 0,
        ensures
            !self.allowed_at(p).contains(self@[q] as int),
    {
    }

    /// On a board made from text, the digits allowed in a cell never include
    /// a digit that stands elsewhere in the cell's row, column or box.
    pub proof fn lemma_text_board_candidates(text: Seq<char>, board: &Sudoku, p: int, q: int)
        requires
            is_board_text(text),
            board.wf(),
            board.in_sync(),
            board@ == text_digits(text),
            0 <= p < 81,
            0 <= q < 81,
            q != p,
            same_house(p, q),
            board@[q] != 0,
        ensures
            !board.allowed_at(p).contains(board@[q] as int),
    {
        board.lemma_allowed_excludes_present(p, q);
    }

    /// Writes `val` into cell `index`, 0 to clear it, and repairs the candidate
    /// sets of the cell's row, column and box: the digit that the cell held, if
    /// any, becomes a candidate again, and `val`, if not 0, stops being one.
    ///
    /// The candidate sets stay in sync with the cells unless the digit that is
    /// overwritten also stands in another cell of the same row, column or box.
    pub fn set(&mut self, index: u8, val: u8)
        requires
            old(self).wf(),
            index < 81,
            val <= 9,
        ensures
            final(self).wf(),
            Self::is_write(old(self), final(self), index as int, val),
            old(self).in_sync() && Self::is_clean_write(old(self), index as int, val)
                ==> final(self).in_sync(),
    {
        let ghost before = *self;
        proof {
            lemma_index_halves(index);
        }
        let slot = (index >> 1) as usize;
        let pair = self.grid[slot];
        let oldval;
        proof {
            lemma_write_high(pair, val);
            lemma_write_low(pair, val);
        }
        if index & 1 == 1 {
            oldval = pair >> 4;
            self.grid[slot] = pair & 0b1111 | val << 4;
        } else {
            oldval = pair & 0b1111;
            self.grid[slot] = (pair & 0b11110000) | val;
        }
        proof {
            assert(oldval == before@[index as int]);
            assert(self@ =~= before@.update(index as int, val));
        }
        let ghost mid = *self;
        let row = Self::row_index(index) as usize;
        let col = Self::col_index(index) as usize;
        let block = Self::grid_index(index) as usize;
        proof {
            assert(before.candidates(House::Row, row as int).wf());
            assert(before.candidates(House::Column, col as int).wf());
            assert(before.candidates(House::Block, block as int).wf());
        }
        if oldval != 0 {
            self.row_candidates[row].insert(oldval);
            self.col_candidates[col].insert(oldval);
            self.grid_candidates[block].insert(oldval);
        }
        if val != 0 {
            self.row_candidates[row].remove(val);
            self.col_candidates[col].remove(val);
            self.grid_candidates[block].remove(val);
        }
        proof {
            let after = *self;
            assert(after@ =~= mid@);
            assert forall|h: House, u: int| 0 <= u < 9 implies (#[trigger] after.candidates(
                h,
                u,
            )).wf() && after.candidates(h, u)@ == Self::toggled(
                before.candidates(h, u)@,
                h,
                u,
                index as int,
                oldval,
                val,
            ) by {
                assert(before.candidates(h, u).wf());
            }
            if before.in_sync() && Self::is_clean_write(&before, index as int, val) {
                Self::lemma_write_keeps_sync(&before, &after, index as int, val);
            }
        }
    }

    /// The box of cell `index`: boxes are numbered row by row, three to a row.
    pub fn grid_index(index: u8) -> (r: u8)
        ensures
            r == box_of(index as int),
            index < 81 ==> r < 9,
    {
        let row_num = index / 27;
        let col_num = (index % 9) / 3;
        row_num * 3 + col_num
    }

    /// The row of cell `index`.
    pub fn row_index(index: u8) -> (r: u8)
        ensures
            r == row_of(index as int),
            index < 81 ==> r < 9,
    {
        index / 9
    }

    /// The column of cell `index`.
    pub fn col_index(index: u8) -> (r: u8)
        ensures
            r == col_of(index as int),
            r < 9,
    {
        index % 9
    }

    /// The digits that the candidate sets allow in cell `index`: those that
    /// are in the sets of its row, its column and its box. While the board is
    /// in sync these are the digits that occur nowhere in the three.
    pub fn get_candidates(&self, index: u8) -> (r: CandidateSet)
        requires
            self.wf(),
            index < 81,
        ensures
            r.wf(),
            r@ == self.allowed_at(index as int),
            self.in_sync() ==> forall|d: int| r@.contains(d) <==> available(self@, index as int, d),
    {
        let row = Self::row_index(index) as usize;
        let col = Self::col_index(index) as usize;
        let block = Self::grid_index(index) as usize;
        assert(self.candidates(House::Row, row as int).wf());
        assert(self.candidates(House::Column, col as int).wf());
        assert(self.candidates(House::Block, block as int).wf());
        let row_candidate_set = self.row_candidates[row];
        let col_candidate_set = self.col_candidates[col];
        let grid_candidate_set = self.grid_candidates[block];
        col_candidate_set.intersect(row_candidate_set).intersect(grid_candidate_set)
    }
}

/// The text of a board: 81 characters, each a digit from `'0'` to `'9'`.
pub open spec fn is_board_text(text: Seq<char>) -> bool {
    text.len() == 81 && forall|i: int| 0 <= i < 81 ==> '0' <= #[trigger] text[i] <= '9'
}

/// The digits that the text of a board spells, `'0'` standing for an empty cell.
pub open spec fn text_digits(text: Seq<char>) -> Seq<u8> {
    Seq::new(81, |i: int| (text[i] as u8 - '0' as u8) as u8)
}

/// Whether 41 packed bytes hold digits only. The spare half of the last byte
/// may hold anything.
pub open spec fn is_packed_grid(bytes: Seq<u8>) -> bool {
    bytes.len() == 41 && forall|p: int| 0 <= p < 81 ==> #[trigger] packed_digit(bytes, p) <= 9
}

/// Whether nine digits hold each of 1 to 9 once: none is 0 and none occurs
/// twice.
pub fn is_valid_group(group: &[u8; 9]) -> (r: bool)
    requires
        forall|k: int| 0 <= k < 9 ==> #[trigger] group[k] <= 9,
    ensures
        r == is_digit_permutation(group@),
{
    let mut occurance: [bool; 9] = [false;9];
    let mut i: usize = 0;
    while i < 9
        invariant
            0 <= i <= 9,
            forall|k: int| 0 <= k < 9 ==> #[trigger] group[k] <= 9,
            forall|k: int| 0 <= k < i ==> 1 <= #[trigger] group[k],
            forall|x: int| 0 <= x < 9 ==> (#[trigger] occurance[x] <==> occurs_before(
                group@,
                i as int,
                x + 1,
            )),
        decreases 9 - i,
    {
        let digit = group[i];
        if digit < 1 {
            return false;
        }
        occurance[(digit - 1) as usize] = true;
        i += 1;
    }
    let mut all: bool = true;
    let mut j: usize = 0;
    while j < 9
        invariant
            0 <= j <= 9,
            all <==> forall|x: int| 0 <= x < j ==> #[trigger] occurance[x],
        decreases 9 - j,
    {
        if !occurance[j] {
            all = false;
        }
        j += 1;
    }
    proof {
        lemma_permutation_iff_covers(group@);
        if all {
            assert forall|d: int| 1 <= d <= 9 implies #[trigger] occurs_in(group@, d) by {
                assert(occurance[d - 1]);
            }
        }
        if covers_digits(group@) {
            assert forall|x: int| 0 <= x < 9 implies #[trigger] occurance[x] by {
                assert(occurs_in(group@, x + 1));
            }
        }
    }
    all
}

/// Whether digit `d` occurs among the first `n` of the group.
pub open spec fn occurs_before(group: Seq<u8>, n: int, d: int) -> bool {
    exists|k: int| 0 <= k < n && #[trigger] group[k] == d
}

/// Whether the first `n` rows, columns and boxes each hold each digit once.
pub open spec fn houses_valid_upto(g: Seq<u8>, n: int) -> bool {
    forall|h: House, u: int| 0 <= u < n ==> is_digit_permutation(#[trigger] house_digits(g, h, u))
}

proof fn lemma_houses_step(g: Seq<u8>, n: int)
    requires
        houses_valid_upto(g, n),
        is_digit_permutation(house_digits(g, House::Row, n)),
        is_digit_permutation(house_digits(g, House::Column, n)),
        is_digit_permutation(house_digits(g, House::Block, n)),
    ensures
        houses_valid_upto(g, n + 1),
{
}

proof fn lemma_houses_fail(g: Seq<u8>, h: House, u: int)
    requires
        0 <= u < 9,
        !is_digit_permutation(house_digits(g, h, u)),
    ensures
        !houses_valid_upto(g, 9),
{
}

impl Sudoku {
    /// The board that holds the given 81 digits, row by row, 0 for an empty
    /// cell.
    pub fn from_digits(v: [u8; 81]) -> (r: Sudoku)
        requires
            is_grid(v@),
        ensures
            r.wf(),
            r.in_sync(),
            r@ == v@,
    {
        let mut sudoku = Sudoku::new();
        let mut k: usize = 0;
        while k < 81
            invariant
                0 <= k <= 81,
                is_grid(v@),
                sudoku.wf(),
                sudoku.in_sync(),
                forall|p: int| 0 <= p < k ==> sudoku@[p] == v[p],
                forall|p: int| k <= p < 81 ==> sudoku@[p] == 0,
            decreases 81 - k,
        {
            let digit = v[k];
            if digit != 0 {
                sudoku.set(k as u8, digit);
            }
            k += 1;
        }
        sudoku
    }

    /// The board that holds the digits of 41 packed bytes: cell `2 * k` in the
    /// low half of byte `k`, cell `2 * k + 1` in its high half. The high half
    /// of the last byte holds no cell.
    pub fn from_packed(v: [u8; 41]) -> (r: Sudoku)
        requires
            is_packed_grid(v@),
        ensures
            r.wf(),
            r.in_sync(),
            r@ == unpack(v@),
    {
        let mut sudoku = Sudoku::new();
        let mut k: usize = 0;
        while k < 41
            invariant
                0 <= k <= 41,
                is_packed_grid(v@),
                sudoku.wf(),
                sudoku.in_sync(),
                forall|p: int| 0 <= p < 2 * k && p < 81 ==> sudoku@[p] == packed_digit(v@, p),
                forall|p: int| 2 * k <= p < 81 ==> sudoku@[p] == 0,
            decreases 41 - k,
        {
            let pair = v[k];
            let v1 = pair & 0b1111;
            let v2 = pair >> 4;
            proof {
                assert(packed_digit(v@, 2 * k as int) == v1);
                if k != 40 {
                    assert(packed_digit(v@, 2 * k + 1) == v2);
                }
            }
            if v1 != 0 {
                sudoku.set((k * 2) as u8, v1);
            }
            if v2 != 0 && k != 40 {
                sudoku.set((k * 2 + 1) as u8, v2);
            }
            k += 1;
        }
        sudoku
    }

    /// The board that the text spells: 81 digit characters, row by row, `'0'`
    /// for an empty cell.
    pub fn from_text(value: &str) -> (r: Sudoku)
        requires
            is_board_text(value@),
        ensures
            r.wf(),
            r.in_sync(),
            r@ == text_digits(value@),
    {
        proof {
            vstd::string::is_ascii_spec_bytes(value);
        }
        let bytes = value.as_bytes();
        let mut sudoku = Sudoku::new();
        let mut k: usize = 0;
        while k < 81
            invariant
                0 <= k <= 81,
                is_board_text(value@),
                bytes@ == Seq::new(value@.len(), |i: int| value@[i] as u8),
                sudoku.wf(),
                sudoku.in_sync(),
                forall|p: int| 0 <= p < k ==> sudoku@[p] == text_digits(value@)[p],
                forall|p: int| k <= p < 81 ==> sudoku@[p] == 0,
            decreases 81 - k,
        {
            let digit = bytes[k] - 48u8;
            if digit != 0 {
                sudoku.set(k as u8, digit);
            }
            k += 1;
        }
        sudoku
    }

    /// The nine digits of a house, in the order of its cells.
    fn house_group(&self, h: &House, u: u8) -> (r: [u8; 9])
        requires
            u < 9,
        ensures
            r@ == house_digits(self@, *h, u as int),
    {
        let mut group: [u8; 9] = [0;9];
        let mut j: u8 = 0;
        while j < 9
            invariant
                0 <= j <= 9,
                u < 9,
                forall|k: int| 0 <= k < j ==> group[k] == self@[house_cell(*h, u as int, k)],
            decreases 9 - j,
        {
            proof {
                lemma_house_cells(*h, u as int, j as int, 0);
            }
            let cell: u8 = match h {
                House::Row => u * 9 + j,
                House::Column => j * 9 + u,
                House::Block => (u / 3) * 27 + (u % 3) * 3 + (j / 3) * 9 + j % 3,
            };
            group[j as usize] = self.get(cell);
            j += 1;
        }
        group
    }

    /// Whether the board is complete and consistent: every row, every column
    /// and every 3×3 box holds each digit from 1 to 9 once.
    pub fn is_valid(&self) -> (r: bool)
        requires
            self.wf(),
        ensures
            r == solved(self@),
            r == houses_valid_upto(self@, 9),
    {
        proof {
            lemma_solved_iff_houses(self@);
        }
        let mut i: u8 = 0;
        while i < 9
            invariant
                0 <= i <= 9,
                is_grid(self@),
                houses_valid_upto(self@, i as int),
                solved(self@) <==> houses_valid_upto(self@, 9),
            decreases 9 - i,
        {
            let row = self.house_group(&House::Row, i);
            proof {
                Self::lemma_group_digits(self@, House::Row, i as int);
            }
            if !is_valid_group(&row) {
                proof {
                    lemma_houses_fail(self@, House::Row, i as int);
                }
                return false;
            }
            let col = self.house_group(&House::Column, i);
            proof {
                Self::lemma_group_digits(self@, House::Column, i as int);
            }
            if !is_valid_group(&col) {
                proof {
                    lemma_houses_fail(self@, House::Column, i as int);
                }
                return false;
            }
            let block = self.house_group(&House::Block, i);
            proof {
                Self::lemma_group_digits(self@, House::Block, i as int);
            }
            if !is_valid_group(&block) {
                proof {
                    lemma_houses_fail(self@, House::Block, i as int);
                }
                return false;
            }
            proof {
                lemma_houses_step(self@, i as int);
            }
            i += 1;
        }
        true
    }

    /// The digits of a house of a grid are digits.
    proof fn lemma_group_digits(g: Seq<u8>, h: House, u: int)
        requires
            is_grid(g),
            0 <= u < 9,
        ensures
            forall|k: int| 0 <= k < 9 ==> #[trigger] house_digits(g, h, u)[k] <= 9,
    {
    }
}

impl PartialEq for Sudoku {
    /// Two boards are equal when they hold the same digits. The candidate sets
    /// are not compared.
    fn eq(&self, other: &Self) -> (r: bool) {
        let mut k: usize = 0;
        while k < 40
            invariant
                0 <= k <= 40,
                forall|p: int| 0 <= p < 2 * k ==> self@[p] == other@[p],
            decreases 40 - k,
        {
            proof {
                if self.grid[k as int] != other.grid[k as int] {
                    if self@[2 * k as int] == other@[2 * k as int] && self@[2 * k + 1] == other@[2
                        * k + 1] {
                        lemma_halves_determine(self.grid[k as int], other.grid[k as int]);
                    }
                }
            }
            if self.grid[k] != other.grid[k] {
                return false;
            }
            k += 1;
        }
        proof {
            assert(self@[80] == self.grid[40] & 0xF);
            if self.grid[40] & 0xF == other.grid[40] & 0xF {
                assert(self@ =~= other@);
            }
        }
        (self.grid[40] & 0b1111) == (other.grid[40] & 0b1111)
    }
}

impl PartialEqSpecImpl for Sudoku {
    open spec fn obeys_eq_spec() -> bool {
        true
    }

    open spec fn eq_spec(&self, other: &Self) -> bool {
        self@ == other@
    }
}

impl Eq for Sudoku {

}

} // verus!
