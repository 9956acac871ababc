//! The search engine: notions of consistency, refinement and full solution,
//! and the bounded depth-first backtracking search `recursive_solve`.

use vstd::prelude::*;

use crate::cell::Cell;
use crate::cell::CellModel;
use crate::cell::cands_of;
use crate::cell::cell_wf;
use crate::cell::has_value;
use crate::cell::is_solved;
use crate::cell::value_of;
use crate::grid::Puzzle;
use crate::grid::all_solved;
use crate::grid::box_cell;
use crate::grid::box_of;
use crate::grid::box_pos;
use crate::grid::col_of;
use crate::grid::grid_wf;
use crate::grid::lemma_box_cell_props;
use crate::grid::lemma_box_pos;
use crate::grid::row_of;
use crate::grid::sees;
use crate::grid::solved_in_box;
use crate::grid::solved_in_col;
use crate::grid::solved_in_row;
use crate::grid::solved_peer;
use crate::propagate::insert_result;
use crate::propagate::removed_by_insert;
use crate::propagate::sweep_result;

verus! {

broadcast use vstd::array::group_array_axioms, crate::grid::lemma_puzzle_view;

/// No two distinct solved cells of a shared unit carry the same value.
pub open spec fn no_dup_solved(s: Seq<CellModel>) -> bool {
    forall|i: int, j: int|
        0 <= i < 81 && 0 <= j < 81 && i != j && sees(i, j) && is_solved(#[trigger] s[i])
            && is_solved(#[trigger] s[j]) ==> value_of(s[i]) != value_of(s[j])
}

/// Every candidates cell excludes every value solved among its peers (the
/// state that a full sweep establishes).
pub open spec fn swept(s: Seq<CellModel>) -> bool {
    forall|i: int, v: int|
        0 <= i < 81 && 0 <= v < 9 && !is_solved(s[i]) && (#[trigger] cands_of(s[i])[v])
            ==> !solved_peer(s, i, v)
}

/// A grid the search engine can run on soundly: no duplicated solved value
/// within a unit, and candidate sets already exclude solved peers.
pub open spec fn consistent(s: Seq<CellModel>) -> bool {
    no_dup_solved(s) && swept(s)
}

/// Cell `c` completes cell `d`: it is solved, and either repeats the value
/// `d` already holds or picks a value `d`'s candidate set still allows.
pub open spec fn refines_at(c: CellModel, d: CellModel) -> bool {
    is_solved(c) && (if is_solved(d) {
        value_of(c) == value_of(d)
    } else {
        0 <= value_of(c) < 9 && cands_of(d)[value_of(c)]
    })
}

/// `sol` is a cell-by-cell completion of `s`.
pub open spec fn refines(sol: Seq<CellModel>, s: Seq<CellModel>) -> bool {
    forall|i: int| 0 <= i < 81 ==> refines_at(#[trigger] sol[i], s[i])
}

/// Two grids are solved at the same positions with the same values (the
/// clue flags may differ).
pub open spec fn same_values(a: Seq<CellModel>, b: Seq<CellModel>) -> bool {
    forall|i: int|
        0 <= i < 81 ==> ((is_solved(#[trigger] a[i]) <==> is_solved(b[i])) && value_of(a[i])
            == value_of(b[i]))
}

/// The `k`-th cell of unit `u`: units 0-8 are the rows, 9-17 the columns,
/// 18-26 the boxes.
pub open spec fn unit_cell(u: int, k: int) -> int {
    if u < 9 {
        9 * u + k
    } else if u < 18 {
        9 * k + (u - 9)
    } else {
        box_cell(u - 18, k)
    }
}

/// Unit `u` contains a solved cell with value `v`.
pub open spec fn unit_has(s: Seq<CellModel>, u: int, v: int) -> bool {
    exists|k: int| 0 <= k < 9 && has_value(#[trigger] s[unit_cell(u, k)], v)
}

/// A completely solved, internally consistent grid: every cell solved, and
/// every row, column and box carries each of the 9 values exactly once
/// (no value twice, every value present).
pub open spec fn full_solution(s: Seq<CellModel>) -> bool {
    grid_wf(s) && all_solved(s) && no_dup_solved(s) && forall|u: int, v: int|
        0 <= u < 27 && 0 <= v < 9 ==> #[trigger] unit_has(s, u, v)
}

/// The grid has exactly one completion, up to the clue flags.
pub open spec fn unique_solution(s: Seq<CellModel>) -> bool {
    (exists|sol: Seq<CellModel>| #[trigger] full_solution(sol) && refines(sol, s)) && (forall|
        s1: Seq<CellModel>,
        s2: Seq<CellModel>,
    |
        full_solution(s1) && (#[trigger] refines(s1, s)) && full_solution(s2) && (#[trigger] refines(
            s2,
            s,
        )) ==> same_values(s1, s2))
}

/// How many of the first `n` cells are not yet solved.
pub open spec fn count_unsolved_upto(s: Seq<CellModel>, n: int) -> int
    decreases n,
{
    if n <= 0 {
        0
    } else {
        count_unsolved_upto(s, n - 1) + if is_solved(s[n - 1]) {
            0int
        } else {
            1int
        }
    }
}

/// How many cells of the grid are not yet solved.
pub open spec fn num_unsolved(s: Seq<CellModel>) -> int {
    count_unsolved_upto(s, 81)
}

pub proof fn lemma_count_nonneg(s: Seq<CellModel>, n: int)
    ensures
        0 <= count_unsolved_upto(s, n) <= if n <= 0 {
            0int
        } else {
            n
        },
    decreases n,
{
    if n > 0 {
        lemma_count_nonneg(s, n - 1);
    }
}

/// Grids solved at the same positions have the same unsolved count.
pub proof fn lemma_count_agree(a: Seq<CellModel>, b: Seq<CellModel>, n: int)
    requires
        forall|i: int| 0 <= i < n ==> (is_solved(#[trigger] a[i]) <==> is_solved(b[i])),
    ensures
        count_unsolved_upto(a, n) == count_unsolved_upto(b, n),
    decreases n,
{
    if n > 0 {
        lemma_count_agree(a, b, n - 1);
    }
}

/// Solving one more cell lowers the unsolved count by one.
pub proof fn lemma_count_update_solved(a: Seq<CellModel>, b: Seq<CellModel>, index: int, n: int)
    requires
        0 <= index,
        forall|i: int| 0 <= i < n && i != index ==> (is_solved(#[trigger] a[i]) <==> is_solved(b[i])),
        !is_solved(a[index]),
        is_solved(b[index]),
    ensures
        index < n ==> count_unsolved_upto(b, n) == count_unsolved_upto(a, n) - 1,
        index >= n ==> count_unsolved_upto(b, n) == count_unsolved_upto(a, n),
    decreases n,
{
    if n > 0 {
        lemma_count_update_solved(a, b, index, n - 1);
    }
}

/// A solved peer seen through `solved_peer` can be produced as a concrete
/// grid index that shares a unit with `i`.
pub proof fn lemma_peer_witness(s: Seq<CellModel>, i: int, v: int)
    requires
        0 <= i < 81,
        solved_peer(s, i, v),
    ensures
        exists|m: int| 0 <= m < 81 && sees(i, m) && has_value(#[trigger] s[m], v),
{
    lemma_box_pos(i);
    if solved_in_row(s, row_of(i), v) {
        let c = choose|c: int| 0 <= c < 9 && has_value(#[trigger] s[9 * row_of(i) + c], v);
        let m = 9 * row_of(i) + c;
        vstd::arithmetic::div_mod::lemma_fundamental_div_mod_converse(m, 9, row_of(i), c);
        assert(0 <= m < 81 && sees(i, m) && has_value(s[m], v));
    } else if solved_in_col(s, col_of(i), v) {
        let r = choose|r: int| 0 <= r < 9 && has_value(#[trigger] s[9 * r + col_of(i)], v);
        let m = 9 * r + col_of(i);
        vstd::arithmetic::div_mod::lemma_fundamental_div_mod_converse(m, 9, r, col_of(i));
        assert(0 <= m < 81 && sees(i, m) && has_value(s[m], v));
    } else {
        let k = choose|k: int| 0 <= k < 9 && has_value(#[trigger] s[box_cell(box_of(i), k)], v);
        let m = box_cell(box_of(i), k);
        lemma_box_cell_props(box_of(i), k);
        assert(0 <= m < 81 && sees(i, m) && has_value(s[m], v));
    }
}

/// A solved cell sharing a unit with `i` is a solved peer of `i`.
pub proof fn lemma_sees_peer(s: Seq<CellModel>, i: int, m: int, v: int)
    requires
        0 <= i < 81,
        0 <= m < 81,
        sees(i, m),
        has_value(s[m], v),
    ensures
        solved_peer(s, i, v),
{
    lemma_box_pos(i);
    lemma_box_pos(m);
    vstd::arithmetic::div_mod::lemma_fundamental_div_mod(m, 9);
    if row_of(i) == row_of(m) {
        assert(has_value(s[9 * row_of(i) + col_of(m)], v));
    } else if col_of(i) == col_of(m) {
        assert(has_value(s[9 * row_of(m) + col_of(i)], v));
    } else {
        assert(has_value(s[box_cell(box_of(i), box_pos(m))], v));
    }
}

/// A solved assignment at `index` in sight of cell `j` is covered by the
/// incremental elimination for `j`: the unit the two cells share names it.
pub proof fn lemma_shared_unit_removal(s1: Seq<CellModel>, index: int, j: int, v: int)
    requires
        s1.len() == 81,
        0 <= index < 81,
        0 <= j < 81,
        sees(j, index),
        has_value(s1[index], v),
    ensures
        removed_by_insert(s1, index, j, v),
{
    lemma_box_pos(j);
    lemma_box_pos(index);
    vstd::arithmetic::div_mod::lemma_fundamental_div_mod(index, 9);
    if row_of(j) == row_of(index) {
        assert(9 * row_of(j) + col_of(index) == index);
        assert(has_value(s1[9 * row_of(j) + col_of(index)], v));
        assert(solved_in_row(s1, row_of(j), v));
    } else if col_of(j) == col_of(index) {
        assert(9 * row_of(index) + col_of(j) == index);
        assert(has_value(s1[9 * row_of(index) + col_of(j)], v));
        assert(solved_in_col(s1, col_of(j), v));
    } else {
        assert(box_of(j) == box_of(index));
        assert(box_cell(box_of(j), box_pos(index)) == index);
        assert(has_value(s1[box_cell(box_of(j), box_pos(index))], v));
        assert(solved_in_box(s1, box_of(j), v));
    }
}

/// The cells of one unit: each unit cell index is a grid index, two
/// different positions of one unit are different grid cells, and they see
/// each other.
pub proof fn lemma_unit_cell_props(u: int, k: int)
    requires
        0 <= u < 27,
        0 <= k < 9,
    ensures
        0 <= unit_cell(u, k) < 81,
        forall|k2: int|
            0 <= k2 < 9 && k2 != k ==> #[trigger] unit_cell(u, k2) != unit_cell(u, k) && sees(
                unit_cell(u, k),
                unit_cell(u, k2),
            ),
{
    if u < 18 {
        assert forall|k2: int| 0 <= k2 < 9 && k2 != k implies #[trigger] unit_cell(u, k2)
            != unit_cell(u, k) && sees(unit_cell(u, k), unit_cell(u, k2)) by {
            if u < 9 {
                vstd::arithmetic::div_mod::lemma_fundamental_div_mod_converse(9 * u + k, 9, u, k);
                vstd::arithmetic::div_mod::lemma_fundamental_div_mod_converse(9 * u + k2, 9, u, k2);
            } else {
                vstd::arithmetic::div_mod::lemma_fundamental_div_mod_converse(
                    9 * k + (u - 9),
                    9,
                    k,
                    u - 9,
                );
                vstd::arithmetic::div_mod::lemma_fundamental_div_mod_converse(
                    9 * k2 + (u - 9),
                    9,
                    k2,
                    u - 9,
                );
            }
        }
    } else {
        lemma_box_cell_props(u - 18, k);
        assert forall|k2: int| 0 <= k2 < 9 && k2 != k implies #[trigger] unit_cell(u, k2)
            != unit_cell(u, k) && sees(unit_cell(u, k), unit_cell(u, k2)) by {
            lemma_box_cell_props(u - 18, k2);
        }
    }
}

/// In an all-solved grid without duplicated values in any unit, every unit
/// carries every value: nine distinct values over nine cells leave no value
/// out.
pub proof fn lemma_unit_complete(s: Seq<CellModel>, u: int)
    requires
        grid_wf(s),
        all_solved(s),
        no_dup_solved(s),
        0 <= u < 27,
    ensures
        forall|v: int| 0 <= v < 9 ==> unit_has(s, u, v),
{
    let vals = Seq::new(9, |k: int| value_of(s[unit_cell(u, k)]));
    assert forall|k1: int, k2: int|
        0 <= k1 < 9 && 0 <= k2 < 9 && k1 != k2 implies vals[k1] != vals[k2] by {
        lemma_unit_cell_props(u, k1);
        lemma_unit_cell_props(u, k2);
    }
    assert(vals.no_duplicates());
    vals.unique_seq_to_set();
    vstd::set_lib::lemma_int_range(0, 9);
    assert forall|x: int| vals.to_set().contains(x) implies vstd::set_lib::set_int_range(
        0,
        9,
    ).contains(x) by {
        let k = choose|k: int| 0 <= k < vals.len() && vals[k] == x;
        lemma_unit_cell_props(u, k);
        assert(cell_wf(s[unit_cell(u, k)]));
    }
    vstd::set_lib::lemma_subset_equality(vals.to_set(), vstd::set_lib::set_int_range(0, 9));
    assert forall|v: int| 0 <= v < 9 implies unit_has(s, u, v) by {
        assert(vals.to_set().contains(v));
        assert(vals.contains(v));
        let k = choose|k: int| 0 <= k < vals.len() && vals[k] == v;
        lemma_unit_cell_props(u, k);
        assert(has_value(s[unit_cell(u, k)], v));
    }
}

/// An all-solved consistent grid is a full solution.
pub proof fn lemma_all_solved_full(s: Seq<CellModel>)
    requires
        grid_wf(s),
        all_solved(s),
        no_dup_solved(s),
    ensures
        full_solution(s),
{
    assert forall|u: int, v: int| 0 <= u < 27 && 0 <= v < 9 implies #[trigger] unit_has(
        s,
        u,
        v,
    ) by {
        lemma_unit_complete(s, u);
    }
}

/// The shape of an incremental insertion: the target cell becomes solved
/// with the given value, every other cell keeps its state, and solved cells
/// keep their contents.
pub proof fn lemma_insert_shape(s: Seq<CellModel>, index: int, value: int)
    requires
        s.len() == 81,
        0 <= index < 81,
    ensures
        insert_result(s, index, value).len() == 81,
        is_solved(insert_result(s, index, value)[index]),
        value_of(insert_result(s, index, value)[index]) == value,
        forall|j: int|
            0 <= j < 81 && j != index ==> (is_solved(#[trigger] insert_result(s, index, value)[j])
                <==> is_solved(s[j])),
        forall|j: int|
            0 <= j < 81 && j != index && is_solved(#[trigger] s[j]) ==> insert_result(
                s,
                index,
                value,
            )[j] == s[j],
{
}

/// Inserting a still-possible value into a consistent grid keeps it
/// consistent, and well formed.
pub proof fn lemma_insert_consistent(s: Seq<CellModel>, index: int, value: int)
    requires
        grid_wf(s),
        consistent(s),
        0 <= index < 81,
        0 <= value < 9,
        !is_solved(s[index]),
        cands_of(s[index])[value],
    ensures
        grid_wf(insert_result(s, index, value)),
        consistent(insert_result(s, index, value)),
{
    let s1 = s.update(index, CellModel::Solved { value, given: false });
    let t = insert_result(s, index, value);
    assert forall|m: int| 0 <= m < 81 implies cell_wf(#[trigger] t[m]) by {
        assert(cell_wf(s[m]));
    }
    // no duplicated solved values
    assert forall|i: int, j: int|
        0 <= i < 81 && 0 <= j < 81 && i != j && sees(i, j) && is_solved(#[trigger] t[i])
            && is_solved(#[trigger] t[j]) implies value_of(t[i]) != value_of(t[j]) by {
        if i != index && j != index {
            assert(t[i] == s[i] && t[j] == s[j]);
        } else {
            let other = if i == index {
                j
            } else {
                i
            };
            assert(t[other] == s[other]);
            if value_of(t[other]) == value {
                lemma_sees_peer(s, index, other, value);
            }
        }
    }
    // candidates still exclude solved peers
    assert forall|j: int, v: int|
        0 <= j < 81 && 0 <= v < 9 && !is_solved(t[j]) && (#[trigger] cands_of(t[j])[v]) implies
    !solved_peer(t, j, v) by {
        assert(t[j] is Candidates);
        assert(s1[j] == s[j]);
        assert(cands_of(s[j])[v]);
        assert(!removed_by_insert(s1, index, j, v));
        if solved_peer(t, j, v) {
            lemma_peer_witness(t, j, v);
            let m = choose|m: int| 0 <= m < 81 && sees(j, m) && has_value(#[trigger] t[m], v);
            if m == index {
                // the shared unit with the fresh assignment would have
                // removed v from j's candidates
                assert(t[index] == s1[index]);
                lemma_shared_unit_removal(s1, index, j, v);
            } else {
                assert(t[m] == s[m]);
                lemma_sees_peer(s, j, m, v);
                assert(!cands_of(s[j])[v]);
            }
        }
    }
}

/// A grid that some full solution completes has no duplicated solved value
/// in any unit.
pub proof fn lemma_refines_no_dup(sol: Seq<CellModel>, s: Seq<CellModel>)
    requires
        refines(sol, s),
        full_solution(sol),
    ensures
        no_dup_solved(s),
{
    assert forall|i: int, j: int|
        0 <= i < 81 && 0 <= j < 81 && i != j && sees(i, j) && is_solved(#[trigger] s[i])
            && is_solved(#[trigger] s[j]) implies value_of(s[i]) != value_of(s[j]) by {
        assert(refines_at(sol[i], s[i]));
        assert(refines_at(sol[j], s[j]));
    }
}

/// A full solution of a grid survives a sweep of that grid: peer exclusion
/// never removes the solution's own value from a cell.
pub proof fn lemma_sweep_refines(sol: Seq<CellModel>, s: Seq<CellModel>)
    requires
        s.len() == 81,
        refines(sol, s),
        full_solution(sol),
    ensures
        refines(sol, sweep_result(s)),
{
    let t = sweep_result(s);
    assert forall|i: int| 0 <= i < 81 implies refines_at(#[trigger] sol[i], t[i]) by {
        assert(refines_at(sol[i], s[i]));
        if !is_solved(s[i]) {
            let v = value_of(sol[i]);
            if solved_peer(s, i, v) {
                lemma_peer_witness(s, i, v);
                let m = choose|m: int| 0 <= m < 81 && sees(i, m) && has_value(#[trigger] s[m], v);
                assert(refines_at(sol[m], s[m]));
                assert(m != i);
                assert(value_of(sol[m]) == v && value_of(sol[i]) == v);
            }
            assert(cands_of(t[i])[v]);
        }
    }
}

/// A sweep only narrows candidate sets, so completing the swept grid also
/// completes the grid it came from.
pub proof fn lemma_sweep_refines_back(sol: Seq<CellModel>, s: Seq<CellModel>)
    requires
        s.len() == 81,
        refines(sol, sweep_result(s)),
    ensures
        refines(sol, s),
{
    let t = sweep_result(s);
    assert forall|i: int| 0 <= i < 81 implies refines_at(#[trigger] sol[i], s[i]) by {
        assert(refines_at(sol[i], t[i]));
    }
}

/// A full solution that assigns `value` at `index` survives inserting
/// `value` there and re-propagating.
pub proof fn lemma_insert_refines(sol: Seq<CellModel>, s: Seq<CellModel>, index: int, value: int)
    requires
        s.len() == 81,
        0 <= index < 81,
        refines(sol, s),
        full_solution(sol),
        !is_solved(s[index]),
        value_of(sol[index]) == value,
    ensures
        refines(sol, insert_result(s, index, value)),
{
    let s1 = s.update(index, CellModel::Solved { value, given: false });
    let t = insert_result(s, index, value);
    assert forall|j: int| 0 <= j < 81 implies refines_at(#[trigger] sol[j], t[j]) by {
        assert(refines_at(sol[j], s[j]));
        if j != index && !is_solved(s[j]) {
            let v = value_of(sol[j]);
            assert(cands_of(s1[j]) == cands_of(s[j]));
            if removed_by_insert(s1, index, j, v) {
                // some solved cell of a unit shared with `index` carries v;
                // that cell also appears in the solution, next to sol[j]
                lemma_box_pos(j);
                if row_of(j) == row_of(index) && solved_in_row(s1, row_of(j), v) {
                    let c = choose|c: int|
                        0 <= c < 9 && has_value(#[trigger] s1[9 * row_of(j) + c], v);
                    vstd::arithmetic::div_mod::lemma_fundamental_div_mod_converse(
                        9 * row_of(j) + c,
                        9,
                        row_of(j),
                        c,
                    );
                    lemma_solution_peer_contra(sol, s, index, value, j, 9 * row_of(j) + c, v);
                } else if col_of(j) == col_of(index) && solved_in_col(s1, col_of(j), v) {
                    let r = choose|r: int|
                        0 <= r < 9 && has_value(#[trigger] s1[9 * r + col_of(j)], v);
                    vstd::arithmetic::div_mod::lemma_fundamental_div_mod_converse(
                        9 * r + col_of(j),
                        9,
                        r,
                        col_of(j),
                    );
                    lemma_solution_peer_contra(sol, s, index, value, j, 9 * r + col_of(j), v);
                } else {
                    let k = choose|k: int|
                        0 <= k < 9 && has_value(#[trigger] s1[box_cell(box_of(j), k)], v);
                    lemma_box_cell_props(box_of(j), k);
                    lemma_solution_peer_contra(sol, s, index, value, j, box_cell(box_of(j), k), v);
                }
            }
            assert(cands_of(t[j])[v]);
        }
    }
}

/// When a solved cell of the grid after an insertion carries value `v` in
/// sight of cell `j`, a full solution of the grid cannot also put `v` at
/// `j`: that would duplicate `v` inside the solution.
proof fn lemma_solution_peer_contra(
    sol: Seq<CellModel>,
    s: Seq<CellModel>,
    index: int,
    value: int,
    j: int,
    u: int,
    v: int,
)
    requires
        s.len() == 81,
        0 <= index < 81,
        0 <= j < 81,
        0 <= u < 81,
        u != j,
        sees(j, u),
        has_value(s.update(index, CellModel::Solved { value, given: false })[u], v),
        refines(sol, s),
        full_solution(sol),
        value_of(sol[index]) == value,
    ensures
        value_of(sol[j]) != v,
{
    if u == index {
        assert(v == value);
    } else {
        assert(refines_at(sol[u], s[u]));
        assert(value_of(sol[u]) == v);
    }
}

/// Whatever completes the grid after an insertion also completes the grid
/// before it, and assigns the inserted value at the inserted cell.
pub proof fn lemma_insert_refines_back(
    sol: Seq<CellModel>,
    s: Seq<CellModel>,
    index: int,
    value: int,
)
    requires
        s.len() == 81,
        0 <= index < 81,
        refines(sol, insert_result(s, index, value)),
        !is_solved(s[index]),
        cands_of(s[index])[value],
        0 <= value < 9,
    ensures
        refines(sol, s),
        value_of(sol[index]) == value,
        is_solved(sol[index]),
{
    let s1 = s.update(index, CellModel::Solved { value, given: false });
    let t = insert_result(s, index, value);
    assert(refines_at(sol[index], t[index]));
    assert forall|j: int| 0 <= j < 81 implies refines_at(#[trigger] sol[j], s[j]) by {
        assert(refines_at(sol[j], t[j]));
        if j != index && !is_solved(s[j]) {
            assert(cands_of(s1[j]) == cands_of(s[j]));
        }
    }
}

/// A full solution completes itself.
pub proof fn lemma_full_refines_self(s: Seq<CellModel>)
    requires
        full_solution(s),
    ensures
        refines(s, s),
{
    assert forall|i: int| 0 <= i < 81 implies refines_at(#[trigger] s[i], s[i]) by {
        assert(cell_wf(s[i]));
    }
}

/// Entries of `out` from position `from` on are full solutions completing `s`.
pub open spec fn appended_solutions(out: Seq<Puzzle>, from: int, s: Seq<CellModel>) -> bool {
    forall|k: int|
        from <= k < out.len() ==> full_solution((#[trigger] out[k])@) && refines(out[k]@, s)
}

/// Entries of `out` from position `from` on are pairwise different solutions.
pub open spec fn appended_distinct(out: Seq<Puzzle>, from: int) -> bool {
    forall|k1: int, k2: int|
        #![trigger out[k1], out[k2]]
        from <= k1 < out.len() && from <= k2 < out.len() && k1 != k2 ==> !same_values(
            out[k1]@,
            out[k2]@,
        )
}

/// Every full solution completing `s` appears among the entries of `out`
/// from position `from` on, up to the clue flags.
pub open spec fn appended_complete(out: Seq<Puzzle>, from: int, s: Seq<CellModel>) -> bool {
    forall|sol: Seq<CellModel>|
        full_solution(sol) && (#[trigger] refines(sol, s)) ==> exists|k: int|
            from <= k < out.len() && same_values((#[trigger] out[k])@, sol)
}

/// Counts the values still possible in a candidate set.
fn count_true(g: [bool; 9]) -> (n: usize)
    ensures
        n <= 9,
{
    let mut n: usize = 0;
    let mut i: usize = 0;
    while i < 9
        invariant
            n <= i,
            i <= 9,
        decreases 9 - i,
    {
        if g[i] {
            n += 1;
        }
        i += 1;
    }
    n
}

impl Puzzle {
    /// Depth-first backtracking search. Appends to `output` completions of
    /// the grid until `max_solutions` entries are held, branching on a cell
    /// with the fewest remaining candidates (ties go to the cell latest in
    /// scan order, values are tried ascending). On a consistent grid every
    /// appended entry is a full solution completing the grid, entries are
    /// pairwise different, and - when the cap was not reached - every
    /// completion of the grid is among them.
    #[verifier::rlimit(60)]
    pub fn recursive_solve(&mut self, output: &mut Vec<Puzzle>, max_solutions: usize)
        requires
            old(self).wf(),
        ensures
            final(self)@ == old(self)@,
            final(self).wf(),
            old(output)@.len() <= final(output)@.len(),
            forall|k: int| 0 <= k < old(output)@.len() ==> final(output)@[k] == old(output)@[k],
            old(output)@.len() < max_solutions ==> final(output)@.len() <= max_solutions as int,
            old(output)@.len() >= max_solutions ==> final(output)@.len() <= old(output)@.len() + 1,
            consistent(old(self)@) ==> appended_solutions(
                final(output)@,
                old(output)@.len() as int,
                old(self)@,
            ),
            consistent(old(self)@) ==> appended_distinct(final(output)@, old(output)@.len() as int),
            consistent(old(self)@) && final(output)@.len() < max_solutions ==> appended_complete(
                final(output)@,
                old(output)@.len() as int,
                old(self)@,
            ),
        decreases num_unsolved(self@),
    {
        let ghost s = self@;
        let ghost out0 = output@;
        let mut min_options: usize = 9;
        let mut best_cell: usize = 0;
        let mut solved = true;
        let mut idx: usize = 0;
        while idx < 81
            invariant
                idx <= 81,
                self.wf(),
                self@ == s,
                solved <==> (forall|i: int| 0 <= i < idx ==> is_solved(#[trigger] s[i])),
                solved ==> min_options == 9,
                !solved ==> best_cell < 81 && !is_solved(s[best_cell as int]),
            decreases 81 - idx,
        {
            proof {
                assert(self@[idx as int] == self.cells@[idx as int]@);
            }
            match self.cells[idx] {
                Cell::Candidates(g) => {
                    solved = false;
                    let options = count_true(g);
                    if min_options >= options {
                        min_options = options;
                        best_cell = idx;
                    }
                },
                Cell::Solved(_) => {},
            }
            idx += 1;
        }
        if solved {
            proof {
                assert(all_solved(s));
                if consistent(s) {
                    lemma_all_solved_full(s);
                }
            }
            let copy = self.clone();
            output.push(copy);
            proof {
                if consistent(s) {
                    lemma_full_refines_self(s);
                    assert forall|sol: Seq<CellModel>|
                        full_solution(sol) && (#[trigger] refines(sol, s)) implies exists|k: int|
                        out0.len() <= k < output@.len() && same_values(
                            (#[trigger] output@[k])@,
                            sol,
                        ) by {
                        assert forall|i: int| 0 <= i < 81 implies (is_solved(
                            #[trigger] copy@[i],
                        ) <==> is_solved(sol[i])) && value_of(copy@[i]) == value_of(sol[i]) by {
                            assert(refines_at(sol[i], s[i]));
                        }
                        let k = out0.len() as int;
                        assert(out0.len() <= k < output@.len() && same_values(output@[k]@, sol));
                    }
                }
            }
            return ;
        }
        let cell = self.cells[best_cell];
        let ghost best = best_cell as int;
        match cell {
            Cell::Candidates(g) => {
                let mut val: usize = 0;
                while val < 9
                    invariant
                        val <= 9,
                        best_cell < 81,
                        best == best_cell as int,
                        s == old(self)@,
                        out0 == old(output)@,
                        self@ == s,
                        self.wf(),
                        g@ == cands_of(s[best]),
                        g@.len() == 9,
                        !is_solved(s[best]),
                        output@.len() >= out0.len(),
                        forall|k: int| 0 <= k < out0.len() ==> output@[k] == out0[k],
                        out0.len() < max_solutions ==> output@.len() <= max_solutions as int,
                        out0.len() >= max_solutions ==> output@ == out0,
                        consistent(s) ==> appended_solutions(output@, out0.len() as int, s),
                        consistent(s) ==> (forall|k: int|
                            out0.len() <= k < output@.len() ==> is_solved(
                                (#[trigger] output@[k])@[best],
                            ) && 0 <= value_of(output@[k]@[best]) < val as int),
                        consistent(s) ==> appended_distinct(output@, out0.len() as int),
                        consistent(s) && output@.len() < max_solutions ==> (forall|
                            sol: Seq<CellModel>,
                        |
                            full_solution(sol) && (#[trigger] refines(sol, s)) && value_of(
                                sol[best],
                            ) < val as int ==> exists|k: int|
                                out0.len() <= k < output@.len() && same_values(
                                    (#[trigger] output@[k])@,
                                    sol,
                                )),
                    decreases 9 - val,
                {
                    if g[val] {
                        if output.len() >= max_solutions {
                            return ;
                        }
                        let mut new_grid = self.clone();
                        new_grid.insert_value(best_cell, val as u8);
                        let ghost ir = insert_result(s, best, val as int);
                        proof {
                            lemma_insert_shape(s, best, val as int);
                            lemma_count_update_solved(s, ir, best, 81);
                            lemma_count_nonneg(ir, 81);
                            if consistent(s) {
                                lemma_insert_consistent(s, best, val as int);
                            }
                        }
                        let ghost out_pre = output@;
                        new_grid.recursive_solve(output, max_solutions);
                        proof {
                            if consistent(s) {
                                assert forall|k: int|
                                    out0.len() <= k < output@.len() implies full_solution(
                                    (#[trigger] output@[k])@,
                                ) && refines(output@[k]@, s) && is_solved(output@[k]@[best]) && 0
                                    <= value_of(output@[k]@[best]) < val as int + 1 by {
                                    if k < out_pre.len() {
                                        assert(output@[k] == out_pre[k]);
                                    } else {
                                        assert(refines(output@[k]@, ir));
                                        lemma_insert_refines_back(
                                            output@[k]@,
                                            s,
                                            best,
                                            val as int,
                                        );
                                    }
                                }
                                assert forall|k1: int, k2: int|
                                    #![trigger output@[k1], output@[k2]]
                                    out0.len() <= k1 < output@.len() && out0.len() <= k2
                                        < output@.len() && k1 != k2 implies !same_values(
                                    output@[k1]@,
                                    output@[k2]@,
                                ) by {
                                    if k1 < out_pre.len() && k2 < out_pre.len() {
                                        assert(output@[k1] == out_pre[k1]);
                                        assert(output@[k2] == out_pre[k2]);
                                    } else if k1 >= out_pre.len() && k2 >= out_pre.len() {
                                    } else {
                                        let ko = if k1 < out_pre.len() {
                                            k1
                                        } else {
                                            k2
                                        };
                                        let kn = if k1 < out_pre.len() {
                                            k2
                                        } else {
                                            k1
                                        };
                                        assert(output@[ko] == out_pre[ko]);
                                        assert(value_of(output@[ko]@[best]) < val as int);
                                        lemma_insert_refines_back(output@[kn]@, s, best, val as int);
                                        assert(value_of(output@[kn]@[best]) == val as int);
                                        if same_values(output@[k1]@, output@[k2]@) {
                                            assert(value_of(output@[k1]@[best]) == value_of(
                                                output@[k2]@[best],
                                            ));
                                        }
                                    }
                                }
                                if output@.len() < max_solutions {
                                    assert forall|sol: Seq<CellModel>|
                                        full_solution(sol) && (#[trigger] refines(sol, s))
                                            && value_of(sol[best]) < val as int + 1 implies exists|
                                        k: int,
                                    |
                                        out0.len() <= k < output@.len() && same_values(
                                            (#[trigger] output@[k])@,
                                            sol,
                                        ) by {
                                        assert(refines_at(sol[best], s[best]));
                                        if value_of(sol[best]) < val as int {
                                            let k = choose|k: int|
                                                out0.len() <= k < out_pre.len() && same_values(
                                                    (#[trigger] out_pre[k])@,
                                                    sol,
                                                );
                                            assert(output@[k] == out_pre[k]);
                                            assert(out0.len() <= k < output@.len() && same_values(
                                                output@[k]@,
                                                sol,
                                            ));
                                        } else {
                                            lemma_insert_refines(sol, s, best, val as int);
                                            assert(refines(sol, ir));
                                            let k = choose|k: int|
                                                out_pre.len() <= k < output@.len() && same_values(
                                                    (#[trigger] output@[k])@,
                                                    sol,
                                                );
                                            assert(out0.len() <= k < output@.len() && same_values(
                                                output@[k]@,
                                                sol,
                                            ));
                                        }
                                    }
                                }
                            }
                        }
                    }
                    val += 1;
                }
                proof {
                    if consistent(s) && output@.len() < max_solutions {
                        assert forall|sol: Seq<CellModel>|
                            full_solution(sol) && (#[trigger] refines(sol, s)) implies exists|
                            k: int,
                        |
                            out0.len() <= k < output@.len() && same_values(
                                (#[trigger] output@[k])@,
                                sol,
                            ) by {
                            assert(refines_at(sol[best], s[best]));
                        }
                    }
                }
            },
            Cell::Solved(_) => {},
        }
    }
}

} // verus!
