//! The grid: canonical addressing of rows, columns and boxes, the [`Puzzle`]
//! type with its view, parsing from an 81-character description, and
//! formatting back to text.

use vstd::prelude::*;

use crate::cell::Cell;
use crate::cell::CellModel;
use crate::cell::SolvedCell;
use crate::cell::cell_wf;
use crate::cell::has_value;
use crate::cell::is_solved;
use crate::cell::value_of;

verus! {

broadcast use vstd::array::group_array_axioms;

/// The row of linear index `i`.
pub open spec fn row_of(i: int) -> int {
    i / 9
}

/// The column of linear index `i`.
pub open spec fn col_of(i: int) -> int {
    i % 9
}

/// The box of linear index `i`: the canonical formula `3*(row/3) + col/3`.
pub open spec fn box_of(i: int) -> int {
    3 * (row_of(i) / 3) + col_of(i) / 3
}

/// The linear index of the `k`-th cell (row-major) of box `b`.
pub open spec fn box_cell(b: int, k: int) -> int {
    27 * (b / 3) + 9 * (k / 3) + 3 * (b % 3) + k % 3
}

/// The position of linear index `j` inside its box, in `0..9`.
pub open spec fn box_pos(j: int) -> int {
    3 * (row_of(j) % 3) + col_of(j) % 3
}

/// The cells of box `b` are exactly `box_cell(b, 0)` .. `box_cell(b, 8)`:
/// each lies in the grid, in box `b`, at box position `k`.
pub proof fn lemma_box_cell_props(b: int, k: int)
    requires
        0 <= b < 9,
        0 <= k < 9,
    ensures
        0 <= box_cell(b, k) < 81,
        row_of(box_cell(b, k)) == 3 * (b / 3) + k / 3,
        col_of(box_cell(b, k)) == 3 * (b % 3) + k % 3,
        box_of(box_cell(b, k)) == b,
        box_pos(box_cell(b, k)) == k,
{
    let j = box_cell(b, k);
    vstd::arithmetic::div_mod::lemma_fundamental_div_mod(b, 3);
    vstd::arithmetic::div_mod::lemma_fundamental_div_mod(k, 3);
    vstd::arithmetic::div_mod::lemma_fundamental_div_mod_converse(
        j,
        9,
        3 * (b / 3) + k / 3,
        3 * (b % 3) + k % 3,
    );
    vstd::arithmetic::div_mod::lemma_fundamental_div_mod_converse(
        3 * (b / 3) + k / 3,
        3,
        b / 3,
        k / 3,
    );
    vstd::arithmetic::div_mod::lemma_fundamental_div_mod_converse(
        3 * (b % 3) + k % 3,
        3,
        b % 3,
        k % 3,
    );
}

/// Every grid index lies in its box: `box_cell(box_of(j), box_pos(j)) == j`,
/// with the row, column and box of `j` all in `0..9`.
pub proof fn lemma_box_pos(j: int)
    requires
        0 <= j < 81,
    ensures
        0 <= row_of(j) < 9,
        0 <= col_of(j) < 9,
        0 <= box_of(j) < 9,
        0 <= box_pos(j) < 9,
        box_cell(box_of(j), box_pos(j)) == j,
{
    vstd::arithmetic::div_mod::lemma_fundamental_div_mod(j, 9);
    vstd::arithmetic::div_mod::lemma_fundamental_div_mod(row_of(j), 3);
    vstd::arithmetic::div_mod::lemma_fundamental_div_mod(col_of(j), 3);
}

/// Two linear indices share a row, a column, or a box.
pub open spec fn sees(i: int, j: int) -> bool {
    row_of(i) == row_of(j) || col_of(i) == col_of(j) || box_of(i) == box_of(j)
}

/// Some cell of row `r` is solved with value `v`.
pub open spec fn solved_in_row(s: Seq<CellModel>, r: int, v: int) -> bool {
    exists|c: int| 0 <= c < 9 && has_value(#[trigger] s[9 * r + c], v)
}

/// Some cell of column `c` is solved with value `v`.
pub open spec fn solved_in_col(s: Seq<CellModel>, c: int, v: int) -> bool {
    exists|r: int| 0 <= r < 9 && has_value(#[trigger] s[9 * r + c], v)
}

/// Some cell of box `b` is solved with value `v`.
pub open spec fn solved_in_box(s: Seq<CellModel>, b: int, v: int) -> bool {
    exists|k: int| 0 <= k < 9 && has_value(#[trigger] s[box_cell(b, k)], v)
}

/// Some cell sharing a unit with index `i` is solved with value `v`.
pub open spec fn solved_peer(s: Seq<CellModel>, i: int, v: int) -> bool {
    solved_in_row(s, row_of(i), v) || solved_in_col(s, col_of(i), v) || solved_in_box(
        s,
        box_of(i),
        v,
    )
}

/// Well-formedness of a grid model: 81 cells, each well formed.
pub open spec fn grid_wf(s: Seq<CellModel>) -> bool {
    s.len() == 81 && forall|i: int| 0 <= i < 81 ==> cell_wf(#[trigger] s[i])
}

/// Every cell of the grid is solved.
pub open spec fn all_solved(s: Seq<CellModel>) -> bool {
    forall|i: int| 0 <= i < 81 ==> is_solved(#[trigger] s[i])
}

/// The cell model that parsing assigns to position `i` of input `s`: a digit
/// character '1'-'9' becomes a given clue, anything else (including a missing
/// character past the end of `s`) an all-true candidate set.
pub open spec fn parse_cell(s: Seq<char>, i: int) -> CellModel {
    if i < s.len() && 49 <= s[i] as int <= 57 {
        CellModel::Solved { value: s[i] as int - 49, given: true }
    } else {
        CellModel::Candidates(Seq::new(9, |v: int| true))
    }
}

/// The grid model that parsing assigns to input `s`, row-major; characters
/// past position 80 are ignored.
pub open spec fn parse_text(s: Seq<char>) -> Seq<CellModel> {
    Seq::new(81, |i: int| parse_cell(s, i))
}

/// The character formatting assigns to a cell: the digit of a solved value,
/// '0' for a cell not resolved to a single value.
pub open spec fn format_cell(c: CellModel) -> char {
    if is_solved(c) {
        (value_of(c) + 49) as char
    } else {
        '0'
    }
}

/// The 81-character row-major text of a grid.
pub open spec fn format_grid(s: Seq<CellModel>) -> Seq<char> {
    Seq::new(81, |i: int| format_cell(s[i]))
}

/// A 9x9 grid of [`Cell`]s, addressed by linear index `9*row + column`.
#[derive(Debug, Ord, PartialOrd, Eq, PartialEq)]
pub struct Puzzle {
    pub(crate) cells: Vec<Cell>,
}

impl View for Puzzle {
    type V = Seq<CellModel>;

    closed spec fn view(&self) -> Seq<CellModel> {
        self.cells@.map_values(|c: Cell| c@)
    }
}

/// The model of a puzzle is the sequence of its cells' models.
pub(crate) broadcast proof fn lemma_puzzle_view(p: &Puzzle)
    ensures
        (#[trigger] p@) == p.cells@.map_values(|c: Cell| c@),
{
}

impl Clone for Puzzle {
    /// A clone has the same model; every search branch and minimizer trial
    /// works on such an independently owned copy.
    fn clone(&self) -> (r: Self)
        ensures
            r@ == self@,
    {
        let mut cells: Vec<Cell> = Vec::new();
        let mut i: usize = 0;
        while i < self.cells.len()
            invariant
                i <= self.cells@.len(),
                cells@.len() == i,
                forall|j: int| 0 <= j < i ==> cells@[j] == self.cells@[j],
            decreases self.cells@.len() - i,
        {
            cells.push(self.cells[i]);
            i += 1;
        }
        proof {
            assert(cells@ =~= self.cells@);
        }
        Puzzle { cells }
    }
}

impl Puzzle {
    /// Well-formedness: the invariant every method preserves.
    pub open spec fn wf(&self) -> bool {
        grid_wf(self@)
    }

    /// Parses an 81-character row-major puzzle description. Digits '1'-'9'
    /// become given clues; any other character, and any missing position of
    /// a shorter input, becomes an unknown cell with all 9 values possible.
    pub fn from_text(input: &str) -> (r: Puzzle)
        ensures
            r.wf(),
            r@ == parse_text(input@),
    {
        let len = input.unicode_len();
        let mut cells: Vec<Cell> = Vec::new();
        let mut i: usize = 0;
        while i < 81
            invariant
                i <= 81,
                cells@.len() == i,
                len == input@.len(),
                forall|j: int| 0 <= j < i ==> #[trigger] cells@[j]@ == parse_cell(input@, j),
            decreases 81 - i,
        {
            let cell: Cell;
            if i < len {
                let c = input.get_char(i);
                let u = c as u32;
                if 49 <= u && u <= 57 {
                    cell = Cell::Solved(SolvedCell { value: (u - 49) as u8, given: true });
                } else {
                    cell = Cell::Candidates([true; 9]);
                }
            } else {
                cell = Cell::Candidates([true; 9]);
            }
            proof {
                assert(cell@ == parse_cell(input@, i as int)) by {
                    if !(i < len && 49 <= input@[i as int] as int <= 57) {
                        assert(cell@->Candidates_0 =~= Seq::new(9, |v: int| true));
                    }
                }
            }
            cells.push(cell);
            i += 1;
        }
        let r = Puzzle { cells };
        proof {
            assert(r@ =~= parse_text(input@));
        }
        r
    }

    /// The 81-character row-major text of the grid: digits for solved cells,
    /// '0' for cells not yet resolved to a single value.
    pub fn solved_string(&self) -> (r: String)
        requires
            self.wf(),
        ensures
            r@ == format_grid(self@),
    {
        let mut r = String::new();
        let mut i: usize = 0;
        while i < 81
            invariant
                i <= 81,
                self.wf(),
                r@ =~= format_grid(self@).take(i as int),
            decreases 81 - i,
        {
            match self.cells[i] {
                Cell::Solved(sc) => {
                    let d: &str = match sc.value {
                        0 => "1",
                        1 => "2",
                        2 => "3",
                        3 => "4",
                        4 => "5",
                        5 => "6",
                        6 => "7",
                        7 => "8",
                        _ => "9",
                    };
                    proof {
                        reveal_strlit("1");
                        reveal_strlit("2");
                        reveal_strlit("3");
                        reveal_strlit("4");
                        reveal_strlit("5");
                        reveal_strlit("6");
                        reveal_strlit("7");
                        reveal_strlit("8");
                        reveal_strlit("9");
                        assert(d@ =~= seq![format_cell(self@[i as int])]);
                    }
                    r.append(d);
                },
                Cell::Candidates(_) => {
                    proof {
                        reveal_strlit("0");
                        assert("0"@ =~= seq![format_cell(self@[i as int])]);
                    }
                    r.append("0");
                },
            }
            proof {
                assert(r@ =~= format_grid(self@).take(i as int + 1));
            }
            i += 1;
        }
        proof {
            assert(format_grid(self@).take(81) =~= format_grid(self@));
        }
        r
    }

    /// The cell at linear index `index`.
    pub fn cell_at(&self, index: usize) -> (c: Cell)
        requires
            self.wf(),
            index < 81,
        ensures
            c@ == self@[index as int],
    {
        self.cells[index]
    }

    /// Whether the grid satisfies its well-formedness invariant: 81 cells,
    /// every solved value in `0..9`. Every grid this library hands out is
    /// well formed; the check lets unverified callers re-establish it.
    pub fn well_formed(&self) -> (r: bool)
        ensures
            r == self.wf(),
    {
        if self.cells.len() != 81 {
            return false;
        }
        let mut i: usize = 0;
        while i < 81
            invariant
                i <= 81,
                self.cells@.len() == 81,
                self@.len() == 81,
                forall|j: int| 0 <= j < i ==> cell_wf(#[trigger] self@[j]),
            decreases 81 - i,
        {
            proof {
                assert(self@[i as int] == self.cells@[i as int]@);
            }
            match self.cells[i] {
                Cell::Solved(sc) => {
                    if sc.value >= 9 {
                        return false;
                    }
                },
                Cell::Candidates(_) => {},
            }
            i += 1;
        }
        true
    }

    /// The box that linear index `index` belongs to, by the canonical
    /// formula `3*(row/3) + column/3`.
    pub fn box_index(index: usize) -> (b: usize)
        requires
            index < 81,
        ensures
            b as int == box_of(index as int),
            b < 9,
    {
        3 * ((index / 9) / 3) + (index % 9) / 3
    }
}

} // verus!
