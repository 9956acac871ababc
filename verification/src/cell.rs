//! The cell model: a grid position is either solved or carries a set of
//! candidate values, and the abstract view of a cell used by all contracts.

use vstd::prelude::*;

verus! {

/// A solved cell: a value in `0..9` (standing for puzzle digits 1-9) and a
/// flag telling an original clue apart from a search-derived assignment.
#[derive(Debug, Copy, Clone, Ord, PartialOrd, Eq, PartialEq)]
pub struct SolvedCell {
    pub value: u8,
    pub given: bool,
}

/// One of the 81 grid positions: either solved, or a set of 9 booleans, one
/// per value that is still logically possible for this position.
#[derive(Debug, Copy, Clone, Ord, PartialOrd, Eq, PartialEq)]
pub enum Cell {
    Solved(SolvedCell),
    Candidates([bool; 9]),
}

/// The mathematical model of a [`Cell`]: contracts speak of cells through
/// this datatype, with the candidate array abstracted to a `Seq<bool>`.
#[verifier::ext_equal]
pub enum CellModel {
    Solved { value: int, given: bool },
    Candidates(Seq<bool>),
}

impl View for Cell {
    type V = CellModel;

    open spec fn view(&self) -> CellModel {
        match *self {
            Cell::Solved(sc) => CellModel::Solved { value: sc.value as int, given: sc.given },
            Cell::Candidates(a) => CellModel::Candidates(a@),
        }
    }
}

/// Whether the cell is in the solved state.
pub open spec fn is_solved(c: CellModel) -> bool {
    c is Solved
}

/// The value of a solved cell; `-1` for a candidates cell.
pub open spec fn value_of(c: CellModel) -> int {
    match c {
        CellModel::Solved { value, .. } => value,
        CellModel::Candidates(_) => -1,
    }
}

/// The clue flag of a solved cell; `false` for a candidates cell.
pub open spec fn given_of(c: CellModel) -> bool {
    match c {
        CellModel::Solved { given, .. } => given,
        CellModel::Candidates(_) => false,
    }
}

/// The candidate set of a candidates cell; empty for a solved cell.
pub open spec fn cands_of(c: CellModel) -> Seq<bool> {
    match c {
        CellModel::Solved { .. } => Seq::empty(),
        CellModel::Candidates(g) => g,
    }
}

/// The cell is solved with exactly this value.
pub open spec fn has_value(c: CellModel, v: int) -> bool {
    is_solved(c) && value_of(c) == v
}

/// Well-formedness of a single cell: a solved value lies in `0..9`, and a
/// candidate set has exactly 9 entries.
pub open spec fn cell_wf(c: CellModel) -> bool {
    match c {
        CellModel::Solved { value, .. } => 0 <= value < 9,
        CellModel::Candidates(g) => g.len() == 9,
    }
}

} // verus!
