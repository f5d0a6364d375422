//! Boards as text: a grid of nine lines, and a single line of 81 characters.

use crate::board::Sudoku;
use vstd::prelude::*;
use vstd::string::StringExecFns;

verus! {

/// The character that shows a digit: `'?'` for an empty cell.
pub open spec fn glyph(d: u8) -> char {
    if d == 1 {
        '1'
    } else if d == 2 {
        '2'
    } else if d == 3 {
        '3'
    } else if d == 4 {
        '4'
    } else if d == 5 {
        '5'
    } else if d == 6 {
        '6'
    } else if d == 7 {
        '7'
    } else if d == 8 {
        '8'
    } else if d == 9 {
        '9'
    } else {
        '?'
    }
}

/// The board on one line: the 81 cells in row-major order.
pub open spec fn line_text(g: Seq<u8>) -> Seq<char> {
    Seq::new(81, |x: int| glyph(g[x]))
}

/// Character `x` of the grid text: each of the nine rows is a line break
/// followed by its nine cells, each cell followed by a comma and a space.
pub open spec fn grid_char(g: Seq<u8>, x: int) -> char {
    let row = x / 28;
    let at = x % 28;
    if at == 0 {
        '\n'
    } else if (at - 1) % 3 == 0 {
        glyph(g[row * 9 + (at - 1) / 3])
    } else if (at - 1) % 3 == 1 {
        ','
    } else {
        ' '
    }
}

/// The board as a grid of nine lines.
pub open spec fn grid_text(g: Seq<u8>) -> Seq<char> {
    Seq::new(252, |x: int| grid_char(g, x))
}

/// The text that shows one digit.
fn digit_text(d: u8) -> (r: &'static str)
    ensures
        r@ == seq![glyph(d)],
{
    proof {
        reveal_strlit("1");
        reveal_strlit("2");
        reveal_strlit("3");
        reveal_strlit("4");
        reveal_strlit("5");
        reveal_strlit("6");
        reveal_strlit("7");
        reveal_strlit("8");
        reveal_strlit("9");
        reveal_strlit("?");
    }
    let r = if d == 1 {
        "1"
    } else if d == 2 {
        "2"
    } else if d == 3 {
        "3"
    } else if d == 4 {
        "4"
    } else if d == 5 {
        "5"
    } else if d == 6 {
        "6"
    } else if d == 7 {
        "7"
    } else if d == 8 {
        "8"
    } else if d == 9 {
        "9"
    } else {
        "?"
    };
    r
}

impl Sudoku {
    /// The board as a grid: nine lines, each a line break followed by the
    /// nine cells of a row, every cell followed by `", "`. An empty cell
    /// shows as `?`.
    pub fn to_string(&self) -> (r: String)
        requires
            self.wf(),
        ensures
            r@ == grid_text(self@),
    {
        let mut out = String::new();
        let mut i: u8 = 0;
        while i < 9
            invariant
                0 <= i <= 9,
                out@.len() == 28 * i,
                forall|x: int| 0 <= x < 28 * i ==> out@[x] == grid_char(self@, x),
            decreases 9 - i,
        {
            proof {
                reveal_strlit("\n");
            }
            out.append("\n");
            let mut j: u8 = 0;
            while j < 9
                invariant
                    0 <= j <= 9,
                    0 <= i < 9,
                    out@.len() == 28 * i + 1 + 3 * j,
                    forall|x: int| 0 <= x < 28 * i + 1 + 3 * j ==> out@[x] == grid_char(self@, x),
                decreases 9 - j,
            {
                let val = self.get(i * 9 + j);
                out.append(digit_text(val));
                proof {
                    reveal_strlit(", ");
                }
                out.append(", ");
                j += 1;
            }
            i += 1;
        }
        out
    }

    /// The board on a single line: its 81 cells in row-major order, an empty
    /// cell shown as `?`.
    pub fn to_line(&self) -> (r: String)
        requires
            self.wf(),
        ensures
            r@ == line_text(self@),
    {
        let mut out = String::new();
        let mut k: u8 = 0;
        while k < 81
            invariant
                0 <= k <= 81,
                out@.len() == k,
                forall|x: int| 0 <= x < k ==> out@[x] == glyph(self@[x]),
            decreases 81 - k,
        {
            let val = self.get(k);
            out.append(digit_text(val));
            k += 1;
        }
        out
    }
}

} // verus!
