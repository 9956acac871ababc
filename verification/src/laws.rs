//! Library-wide laws that relate several operations: box-index consistency
//! across the addressing formulas, and the format/parse round trip for
//! solved grids.

use vstd::prelude::*;

use crate::cell::CellModel;
use crate::cell::cands_of;
use crate::cell::cell_wf;
use crate::cell::given_of;
use crate::cell::has_value;
use crate::cell::is_solved;
use crate::cell::value_of;
use crate::grid::all_solved;
use crate::grid::box_cell;
use crate::grid::box_of;
use crate::grid::box_pos;
use crate::grid::col_of;
use crate::grid::format_grid;
use crate::grid::grid_wf;
use crate::grid::lemma_box_pos;
use crate::grid::parse_text;
use crate::grid::row_of;
use crate::grid::sees;
use crate::grid::solved_peer;
use crate::propagate::insert_result;
use crate::propagate::removed_by_insert;
use crate::propagate::sweep_result;
use crate::solve::lemma_peer_witness;
use crate::solve::lemma_sees_peer;
use crate::solve::lemma_shared_unit_removal;
use crate::solve::swept;

verus! {

/// Box-index consistency: the canonical unit formula classifies linear
/// index 40 (row 4, column 4) into box 4, the center box; every index
/// agrees with the formula `3*(row/3) + column/3`; and every index lies
/// inside the box that formula assigns to it. The incremental updater
/// re-propagates exactly the box `box_of` names, so it agrees with this
/// classification on all 81 indices.
pub proof fn lemma_box_index_consistency()
    ensures
        box_of(40) == 4,
        forall|i: int|
            0 <= i < 81 ==> #[trigger] box_of(i) == 3 * (row_of(i) / 3) + col_of(i) / 3,
        forall|i: int|
            0 <= i < 81 ==> 0 <= #[trigger] box_of(i) < 9 && box_cell(box_of(i), box_pos(i)) == i,
{
    assert forall|i: int| 0 <= i < 81 implies 0 <= #[trigger] box_of(i) < 9 && box_cell(
        box_of(i),
        box_pos(i),
    ) == i by {
        lemma_box_pos(i);
    }
}

/// Round trip: formatting a fully solved grid to text and reparsing it
/// yields a grid whose every cell is solved with the same value (now marked
/// as a given), and a sweep leaves that grid unchanged.
pub proof fn lemma_format_parse_round_trip(s: Seq<CellModel>)
    requires
        grid_wf(s),
        all_solved(s),
    ensures
        forall|i: int|
            0 <= i < 81 ==> is_solved(#[trigger] parse_text(format_grid(s))[i]) && value_of(
                parse_text(format_grid(s))[i],
            ) == value_of(s[i]) && given_of(parse_text(format_grid(s))[i]),
        sweep_result(parse_text(format_grid(s))) == parse_text(format_grid(s)),
{
    let t = parse_text(format_grid(s));
    assert forall|i: int| 0 <= i < 81 implies is_solved(#[trigger] t[i]) && value_of(t[i])
        == value_of(s[i]) && given_of(t[i]) by {
        assert(cell_wf(s[i]));
        let v = value_of(s[i]);
        assert(format_grid(s)[i] == (v + 49) as char);
        assert(49 <= ((v + 49) as char) as int <= 57);
    }
    assert(sweep_result(t) =~~= t);
}

/// Incremental equivalence: in a fully swept grid, assigning a value at one
/// cell and re-propagating only the row, column and box of that cell yields
/// exactly what a full sweep of the updated grid would. Units the single
/// assignment does not touch are unaffected.
pub proof fn lemma_insert_equals_sweep(s: Seq<CellModel>, index: int, value: int)
    requires
        grid_wf(s),
        swept(s),
        0 <= index < 81,
        0 <= value < 9,
    ensures
        insert_result(s, index, value) == sweep_result(
            s.update(index, CellModel::Solved { value, given: false }),
        ),
{
    let s1 = s.update(index, CellModel::Solved { value, given: false });
    let a = insert_result(s, index, value);
    let b = sweep_result(s1);
    assert forall|j: int| 0 <= j < 81 implies a[j] =~~= b[j] by {
        if !is_solved(s1[j]) {
            assert(j != index);
            assert(s1[j] == s[j]);
            assert forall|v: int|
                0 <= v < 9 && cands_of(s1[j])[v] implies (!removed_by_insert(s1, index, j, v)
                    <==> !solved_peer(s1, j, v)) by {
                if solved_peer(s1, j, v) && !removed_by_insert(s1, index, j, v) {
                    lemma_peer_witness(s1, j, v);
                    let m = choose|m: int|
                        0 <= m < 81 && sees(j, m) && has_value(#[trigger] s1[m], v);
                    if m == index {
                        lemma_shared_unit_removal(s1, index, j, v);
                    } else {
                        assert(s1[m] == s[m]);
                        lemma_sees_peer(s, j, m, v);
                        assert(!cands_of(s[j])[v]);
                    }
                }
            }
            assert(cands_of(a[j]) =~= cands_of(b[j]));
        }
    }
    assert(a =~~= b);
}

} // verus!
