//! The propagator: direct peer-exclusion of candidate values, per unit
//! (`update_row`, `update_column`, `update_box`), over the whole grid
//! (`sweep`), and incrementally after a single assignment (`insert_value`).

use vstd::prelude::*;

use crate::cell::Cell;
use crate::cell::CellModel;
use crate::cell::SolvedCell;
use crate::cell::cands_of;
use crate::cell::cell_wf;
use crate::cell::has_value;
use crate::cell::is_solved;
use crate::grid::Puzzle;
use crate::grid::box_cell;
use crate::grid::box_of;
use crate::grid::box_pos;
use crate::grid::col_of;
use crate::grid::grid_wf;
use crate::grid::lemma_box_cell_props;
use crate::grid::lemma_box_pos;
use crate::grid::row_of;
use crate::grid::solved_in_box;
use crate::grid::solved_in_col;
use crate::grid::solved_in_row;
use crate::grid::solved_peer;

verus! {

broadcast use vstd::array::group_array_axioms, crate::grid::lemma_puzzle_view;

/// The grid after one propagation pass over row `r`: every candidates cell
/// of that row loses each value that some solved cell of the row carries;
/// nothing else changes.
pub open spec fn row_swept(s: Seq<CellModel>, r: int) -> Seq<CellModel> {
    Seq::new(
        81,
        |j: int|
            if row_of(j) == r && !is_solved(s[j]) {
                CellModel::Candidates(
                    Seq::new(9, |v: int| cands_of(s[j])[v] && !solved_in_row(s, r, v)),
                )
            } else {
                s[j]
            },
    )
}

/// The grid after one propagation pass over column `c`.
pub open spec fn col_swept(s: Seq<CellModel>, c: int) -> Seq<CellModel> {
    Seq::new(
        81,
        |j: int|
            if col_of(j) == c && !is_solved(s[j]) {
                CellModel::Candidates(
                    Seq::new(9, |v: int| cands_of(s[j])[v] && !solved_in_col(s, c, v)),
                )
            } else {
                s[j]
            },
    )
}

/// The grid after one propagation pass over box `b`.
pub open spec fn box_swept(s: Seq<CellModel>, b: int) -> Seq<CellModel> {
    Seq::new(
        81,
        |j: int|
            if box_of(j) == b && !is_solved(s[j]) {
                CellModel::Candidates(
                    Seq::new(9, |v: int| cands_of(s[j])[v] && !solved_in_box(s, b, v)),
                )
            } else {
                s[j]
            },
    )
}

/// The grid after a full sweep: every candidates cell keeps exactly the
/// values not solved anywhere among its row, column and box peers.
pub open spec fn sweep_result(s: Seq<CellModel>) -> Seq<CellModel> {
    Seq::new(
        81,
        |j: int|
            if !is_solved(s[j]) {
                CellModel::Candidates(
                    Seq::new(9, |v: int| cands_of(s[j])[v] && !solved_peer(s, j, v)),
                )
            } else {
                s[j]
            },
    )
}

/// Value `v` is eliminated from cell `j` by the incremental update after an
/// assignment at `index` of grid `s1`: `j` shares a unit with `index` and
/// some solved cell of that shared unit carries `v`.
pub open spec fn removed_by_insert(s1: Seq<CellModel>, index: int, j: int, v: int) -> bool {
    (row_of(j) == row_of(index) && solved_in_row(s1, row_of(j), v)) || (col_of(j) == col_of(index)
        && solved_in_col(s1, col_of(j), v)) || (box_of(j) == box_of(index) && solved_in_box(
        s1,
        box_of(j),
        v,
    ))
}

/// The grid after `insert_value(index, value)`: the cell at `index` becomes
/// solved (not a given), and the candidates cells of its row, column and box
/// are re-propagated against the new solved set.
pub open spec fn insert_result(s: Seq<CellModel>, index: int, value: int) -> Seq<CellModel> {
    let s1 = s.update(index, CellModel::Solved { value, given: false });
    Seq::new(
        81,
        |j: int|
            if !is_solved(s1[j]) {
                CellModel::Candidates(
                    Seq::new(9, |v: int| cands_of(s1[j])[v] && !removed_by_insert(s1, index, j, v)),
                )
            } else {
                s1[j]
            },
    )
}

/// Value `v` is solved somewhere in the first `n` cells of row `r`.
pub open spec fn solved_in_row_upto(s: Seq<CellModel>, r: int, n: int, v: int) -> bool {
    exists|c: int| 0 <= c < n && has_value(#[trigger] s[9 * r + c], v)
}

/// Value `v` is solved somewhere in the first `n` cells of column `c`.
pub open spec fn solved_in_col_upto(s: Seq<CellModel>, c: int, n: int, v: int) -> bool {
    exists|r: int| 0 <= r < n && has_value(#[trigger] s[9 * r + c], v)
}

/// Value `v` is solved somewhere in the first `n` cells of box `b`.
pub open spec fn solved_in_box_upto(s: Seq<CellModel>, b: int, n: int, v: int) -> bool {
    exists|k: int| 0 <= k < n && has_value(#[trigger] s[box_cell(b, k)], v)
}

/// Grids with the same solved cells agree on which values are solved in
/// every row, column and box.
pub proof fn lemma_units_agree(a: Seq<CellModel>, b: Seq<CellModel>)
    requires
        a.len() == 81,
        b.len() == 81,
        forall|i: int| 0 <= i < 81 ==> (is_solved(#[trigger] b[i]) <==> is_solved(a[i])),
        forall|i: int| 0 <= i < 81 && is_solved(#[trigger] a[i]) ==> b[i] == a[i],
    ensures
        forall|r: int, v: int|
            0 <= r < 9 ==> (#[trigger] solved_in_row(b, r, v) <==> solved_in_row(a, r, v)),
        forall|c: int, v: int|
            0 <= c < 9 ==> (#[trigger] solved_in_col(b, c, v) <==> solved_in_col(a, c, v)),
        forall|x: int, v: int|
            0 <= x < 9 ==> (#[trigger] solved_in_box(b, x, v) <==> solved_in_box(a, x, v)),
        forall|j: int, v: int|
            0 <= j < 81 ==> (#[trigger] solved_peer(b, j, v) <==> solved_peer(a, j, v)),
{
    assert forall|x: int, v: int| 0 <= x < 9 implies (#[trigger] solved_in_box(b, x, v)
        <==> solved_in_box(a, x, v)) by {
        if solved_in_box(a, x, v) {
            let k = choose|k: int| 0 <= k < 9 && has_value(#[trigger] a[box_cell(x, k)], v);
            lemma_box_cell_props(x, k);
            assert(has_value(b[box_cell(x, k)], v));
        }
        if solved_in_box(b, x, v) {
            let k = choose|k: int| 0 <= k < 9 && has_value(#[trigger] b[box_cell(x, k)], v);
            lemma_box_cell_props(x, k);
            assert(has_value(a[box_cell(x, k)], v));
        }
    }
    assert forall|j: int, v: int| 0 <= j < 81 implies (#[trigger] solved_peer(b, j, v)
        <==> solved_peer(a, j, v)) by {
        lemma_box_pos(j);
    }
}

impl Puzzle {
    /// Re-derives the candidate sets of row `index` by clearing, from each
    /// candidates cell of the row, every value already solved in the row.
    /// An out-of-range row index is a defensive no-op.
    pub fn update_row(&mut self, index: usize)
        requires
            old(self).wf(),
        ensures
            final(self).wf(),
            index < 9 ==> final(self)@ == row_swept(old(self)@, index as int),
            index >= 9 ==> final(self)@ == old(self)@,
    {
        if index >= 9 {
            return ;
        }
        let ghost s0 = self@;
        let ghost r = index as int;
        let mut mask: [bool; 9] = [true; 9];
        let mut c: usize = 0;
        while c < 9
            invariant
                c <= 9,
                index < 9,
                r == index as int,
                self@ == s0,
                self.wf(),
                forall|v: int|
                    0 <= v < 9 ==> ((#[trigger] mask@[v]) <==> !solved_in_row_upto(
                        s0,
                        r,
                        c as int,
                        v,
                    )),
            decreases 9 - c,
        {
            let j = 9 * index + c;
            let cell_j = self.cells[j];
            proof {
                assert(cell_wf(s0[j as int]));
            }
            match cell_j {
                Cell::Solved(sc) => {
                    mask[sc.value as usize] = false;
                },
                Cell::Candidates(_) => {},
            }
            proof {
                assert forall|v: int| 0 <= v < 9 implies ((#[trigger] mask@[v])
                    <==> !solved_in_row_upto(s0, r, c as int + 1, v)) by {
                    if solved_in_row_upto(s0, r, c as int + 1, v) {
                        let cw = choose|cw: int|
                            0 <= cw < c as int + 1 && has_value(#[trigger] s0[9 * r + cw], v);
                        if cw < c as int {
                            assert(solved_in_row_upto(s0, r, c as int, v));
                        } else {
                            assert(has_value(s0[9 * r + c], v));
                        }
                    } else {
                        assert(!solved_in_row_upto(s0, r, c as int, v));
                        assert(!has_value(s0[9 * r + c], v));
                    }
                }
            }
            c += 1;
        }
        proof {
            assert forall|v: int| 0 <= v < 9 implies ((#[trigger] mask@[v]) <==> !solved_in_row(
                s0,
                r,
                v,
            )) by {
                assert(solved_in_row_upto(s0, r, 9, v) <==> solved_in_row(s0, r, v));
            }
        }
        let ghost rs = row_swept(s0, r);
        let mut c: usize = 0;
        while c < 9
            invariant
                c <= 9,
                index < 9,
                r == index as int,
                grid_wf(s0),
                self@.len() == 81,
                forall|v: int|
                    0 <= v < 9 ==> ((#[trigger] mask@[v]) <==> !solved_in_row(s0, r, v)),
                forall|m: int|
                    0 <= m < 81 ==> #[trigger] self@[m] == (if row_of(m) == r && col_of(m)
                        < c as int {
                        row_swept(s0, r)[m]
                    } else {
                        s0[m]
                    }),
            decreases 9 - c,
        {
            let j = 9 * index + c;
            let ghost pre = self@;
            proof {
                vstd::arithmetic::div_mod::lemma_fundamental_div_mod_converse(
                    j as int,
                    9,
                    r,
                    c as int,
                );
                assert(self@[j as int] == s0[j as int]);
            }
            match self.cells[j] {
                Cell::Candidates(g) => {
                    let mut g2 = g;
                    let mut v: usize = 0;
                    while v < 9
                        invariant
                            v <= 9,
                            g@.len() == 9,
                            g2@.len() == 9,
                            forall|w: int| 0 <= w < v ==> #[trigger] g2@[w] == (g@[w] && mask@[w]),
                            forall|w: int| v <= w < 9 ==> #[trigger] g2@[w] == g@[w],
                        decreases 9 - v,
                    {
                        g2[v] = g2[v] && mask[v];
                        v += 1;
                    }
                    self.cells[j] = Cell::Candidates(g2);
                    proof {
                        assert(g2@ =~= cands_of(row_swept(s0, r)[j as int]));
                        assert(self@[j as int] =~~= row_swept(s0, r)[j as int]);
                    }
                },
                Cell::Solved(_) => {
                    proof {
                        assert(self@[j as int] == row_swept(s0, r)[j as int]);
                    }
                },
            }
            proof {
                assert forall|m: int| 0 <= m < 81 implies #[trigger] self@[m] == (if row_of(m) == r
                    && col_of(m) < c as int + 1 {
                    row_swept(s0, r)[m]
                } else {
                    s0[m]
                }) by {
                    vstd::arithmetic::div_mod::lemma_fundamental_div_mod(m, 9);
                    if m != j as int {
                        assert(self@[m] == pre[m]);
                        assert(pre[m] == (if row_of(m) == r && col_of(m) < c as int {
                            row_swept(s0, r)[m]
                        } else {
                            s0[m]
                        }));
                    }
                }
            }
            c += 1;
        }
        proof {
            assert(self@ =~= row_swept(s0, r));
            assert forall|m: int| 0 <= m < 81 implies cell_wf(#[trigger] self@[m]) by {
                assert(cell_wf(s0[m]));
            }
        }
    }

    /// Re-derives the candidate sets of column `index` by clearing, from
    /// each candidates cell of the column, every value already solved in the
    /// column. An out-of-range column index is a defensive no-op.
    pub fn update_column(&mut self, index: usize)
        requires
            old(self).wf(),
        ensures
            final(self).wf(),
            index < 9 ==> final(self)@ == col_swept(old(self)@, index as int),
            index >= 9 ==> final(self)@ == old(self)@,
    {
        if index >= 9 {
            return ;
        }
        let ghost s0 = self@;
        let ghost cc = index as int;
        let mut mask: [bool; 9] = [true; 9];
        let mut rr: usize = 0;
        while rr < 9
            invariant
                rr <= 9,
                index < 9,
                cc == index as int,
                self@ == s0,
                self.wf(),
                forall|v: int|
                    0 <= v < 9 ==> ((#[trigger] mask@[v]) <==> !solved_in_col_upto(
                        s0,
                        cc,
                        rr as int,
                        v,
                    )),
            decreases 9 - rr,
        {
            let j = 9 * rr + index;
            let cell_j = self.cells[j];
            proof {
                assert(cell_wf(s0[j as int]));
            }
            match cell_j {
                Cell::Solved(sc) => {
                    mask[sc.value as usize] = false;
                },
                Cell::Candidates(_) => {},
            }
            proof {
                assert forall|v: int| 0 <= v < 9 implies ((#[trigger] mask@[v])
                    <==> !solved_in_col_upto(s0, cc, rr as int + 1, v)) by {
                    if solved_in_col_upto(s0, cc, rr as int + 1, v) {
                        let rw = choose|rw: int|
                            0 <= rw < rr as int + 1 && has_value(#[trigger] s0[9 * rw + cc], v);
                        if rw < rr as int {
                            assert(solved_in_col_upto(s0, cc, rr as int, v));
                        } else {
                            assert(has_value(s0[9 * rr + cc], v));
                        }
                    } else {
                        assert(!solved_in_col_upto(s0, cc, rr as int, v));
                        assert(!has_value(s0[9 * rr + cc], v));
                    }
                }
            }
            rr += 1;
        }
        proof {
            assert forall|v: int| 0 <= v < 9 implies ((#[trigger] mask@[v]) <==> !solved_in_col(
                s0,
                cc,
                v,
            )) by {
                assert(solved_in_col_upto(s0, cc, 9, v) <==> solved_in_col(s0, cc, v));
            }
        }
        let mut rr: usize = 0;
        while rr < 9
            invariant
                rr <= 9,
                index < 9,
                cc == index as int,
                grid_wf(s0),
                self@.len() == 81,
                forall|v: int|
                    0 <= v < 9 ==> ((#[trigger] mask@[v]) <==> !solved_in_col(s0, cc, v)),
                forall|m: int|
                    0 <= m < 81 ==> #[trigger] self@[m] == (if col_of(m) == cc && row_of(m)
                        < rr as int {
                        col_swept(s0, cc)[m]
                    } else {
                        s0[m]
                    }),
            decreases 9 - rr,
        {
            let j = 9 * rr + index;
            let ghost pre = self@;
            proof {
                vstd::arithmetic::div_mod::lemma_fundamental_div_mod_converse(
                    j as int,
                    9,
                    rr as int,
                    cc,
                );
                assert(self@[j as int] == s0[j as int]);
            }
            match self.cells[j] {
                Cell::Candidates(g) => {
                    let mut g2 = g;
                    let mut v: usize = 0;
                    while v < 9
                        invariant
                            v <= 9,
                            g@.len() == 9,
                            g2@.len() == 9,
                            forall|w: int| 0 <= w < v ==> #[trigger] g2@[w] == (g@[w] && mask@[w]),
                            forall|w: int| v <= w < 9 ==> #[trigger] g2@[w] == g@[w],
                        decreases 9 - v,
                    {
                        g2[v] = g2[v] && mask[v];
                        v += 1;
                    }
                    self.cells[j] = Cell::Candidates(g2);
                    proof {
                        assert(g2@ =~= cands_of(col_swept(s0, cc)[j as int]));
                        assert(self@[j as int] =~~= col_swept(s0, cc)[j as int]);
                    }
                },
                Cell::Solved(_) => {
                    proof {
                        assert(self@[j as int] == col_swept(s0, cc)[j as int]);
                    }
                },
            }
            proof {
                assert forall|m: int| 0 <= m < 81 implies #[trigger] self@[m] == (if col_of(m) == cc
                    && row_of(m) < rr as int + 1 {
                    col_swept(s0, cc)[m]
                } else {
                    s0[m]
                }) by {
                    vstd::arithmetic::div_mod::lemma_fundamental_div_mod(m, 9);
                    if m != j as int {
                        assert(self@[m] == pre[m]);
                        assert(pre[m] == (if col_of(m) == cc && row_of(m) < rr as int {
                            col_swept(s0, cc)[m]
                        } else {
                            s0[m]
                        }));
                    }
                }
            }
            rr += 1;
        }
        proof {
            assert(self@ =~= col_swept(s0, cc));
            assert forall|m: int| 0 <= m < 81 implies cell_wf(#[trigger] self@[m]) by {
                assert(cell_wf(s0[m]));
            }
        }
    }

    /// Re-derives the candidate sets of box `index` by clearing, from each
    /// candidates cell of the box, every value already solved in the box.
    /// An out-of-range box index is a defensive no-op.
    pub fn update_box(&mut self, index: usize)
        requires
            old(self).wf(),
        ensures
            final(self).wf(),
            index < 9 ==> final(self)@ == box_swept(old(self)@, index as int),
            index >= 9 ==> final(self)@ == old(self)@,
    {
        if index >= 9 {
            return ;
        }
        let ghost s0 = self@;
        let ghost b = index as int;
        let base = 9 * (3 * (index / 3)) + 3 * (index % 3);
        let mut mask: [bool; 9] = [true; 9];
        let mut k: usize = 0;
        while k < 9
            invariant
                k <= 9,
                index < 9,
                b == index as int,
                base == 27 * (index / 3) + 3 * (index % 3),
                self@ == s0,
                self.wf(),
                forall|v: int|
                    0 <= v < 9 ==> ((#[trigger] mask@[v]) <==> !solved_in_box_upto(
                        s0,
                        b,
                        k as int,
                        v,
                    )),
            decreases 9 - k,
        {
            let j = base + 9 * (k / 3) + k % 3;
            proof {
                lemma_box_cell_props(b, k as int);
                assert(j as int == box_cell(b, k as int));
            }
            let cell_j = self.cells[j];
            proof {
                assert(cell_wf(s0[j as int]));
            }
            match cell_j {
                Cell::Solved(sc) => {
                    mask[sc.value as usize] = false;
                },
                Cell::Candidates(_) => {},
            }
            proof {
                assert forall|v: int| 0 <= v < 9 implies ((#[trigger] mask@[v])
                    <==> !solved_in_box_upto(s0, b, k as int + 1, v)) by {
                    if solved_in_box_upto(s0, b, k as int + 1, v) {
                        let kw = choose|kw: int|
                            0 <= kw < k as int + 1 && has_value(#[trigger] s0[box_cell(b, kw)], v);
                        if kw < k as int {
                            assert(solved_in_box_upto(s0, b, k as int, v));
                        } else {
                            assert(has_value(s0[box_cell(b, k as int)], v));
                        }
                    } else {
                        assert(!solved_in_box_upto(s0, b, k as int, v));
                        assert(!has_value(s0[box_cell(b, k as int)], v));
                    }
                }
            }
            k += 1;
        }
        proof {
            assert forall|v: int| 0 <= v < 9 implies ((#[trigger] mask@[v]) <==> !solved_in_box(
                s0,
                b,
                v,
            )) by {
                assert(solved_in_box_upto(s0, b, 9, v) <==> solved_in_box(s0, b, v));
            }
        }
        let mut k: usize = 0;
        while k < 9
            invariant
                k <= 9,
                index < 9,
                b == index as int,
                base == 27 * (index / 3) + 3 * (index % 3),
                grid_wf(s0),
                self@.len() == 81,
                forall|v: int|
                    0 <= v < 9 ==> ((#[trigger] mask@[v]) <==> !solved_in_box(s0, b, v)),
                forall|m: int|
                    0 <= m < 81 ==> #[trigger] self@[m] == (if box_of(m) == b && box_pos(m)
                        < k as int {
                        box_swept(s0, b)[m]
                    } else {
                        s0[m]
                    }),
            decreases 9 - k,
        {
            let j = base + 9 * (k / 3) + k % 3;
            let ghost pre = self@;
            proof {
                lemma_box_cell_props(b, k as int);
                assert(j as int == box_cell(b, k as int));
                assert(self@[j as int] == s0[j as int]);
            }
            match self.cells[j] {
                Cell::Candidates(g) => {
                    let mut g2 = g;
                    let mut v: usize = 0;
                    while v < 9
                        invariant
                            v <= 9,
                            g@.len() == 9,
                            g2@.len() == 9,
                            forall|w: int| 0 <= w < v ==> #[trigger] g2@[w] == (g@[w] && mask@[w]),
                            forall|w: int| v <= w < 9 ==> #[trigger] g2@[w] == g@[w],
                        decreases 9 - v,
                    {
                        g2[v] = g2[v] && mask[v];
                        v += 1;
                    }
                    self.cells[j] = Cell::Candidates(g2);
                    proof {
                        assert(g2@ =~= cands_of(box_swept(s0, b)[j as int]));
                        assert(self@[j as int] =~~= box_swept(s0, b)[j as int]);
                    }
                },
                Cell::Solved(_) => {
                    proof {
                        assert(self@[j as int] == box_swept(s0, b)[j as int]);
                    }
                },
            }
            proof {
                assert forall|m: int| 0 <= m < 81 implies #[trigger] self@[m] == (if box_of(m) == b
                    && box_pos(m) < k as int + 1 {
                    box_swept(s0, b)[m]
                } else {
                    s0[m]
                }) by {
                    lemma_box_pos(m);
                    if m != j as int {
                        assert(self@[m] == pre[m]);
                        assert(pre[m] == (if box_of(m) == b && box_pos(m) < k as int {
                            box_swept(s0, b)[m]
                        } else {
                            s0[m]
                        }));
                    }
                }
            }
            k += 1;
        }
        proof {
            assert(self@ =~= box_swept(s0, b));
            assert forall|m: int| 0 <= m < 81 implies cell_wf(#[trigger] self@[m]) by {
                assert(cell_wf(s0[m]));
            }
        }
    }

    /// One full propagation pass: every candidates cell loses exactly the
    /// values solved among its row, column and box peers. Afterwards no
    /// candidates cell retains a value that a solved cell of one of its
    /// units carries.
    #[verifier::rlimit(30)]
    pub fn sweep(&mut self)
        requires
            old(self).wf(),
        ensures
            final(self).wf(),
            final(self)@ == sweep_result(old(self)@),
            forall|i: int, v: int|
                0 <= i < 81 && 0 <= v < 9 && !is_solved(final(self)@[i]) && (#[trigger] cands_of(
                    final(self)@[i],
                )[v]) ==> !solved_peer(final(self)@, i, v),
    {
        let ghost s0 = self@;
        let mut u: usize = 0;
        while u < 9
            invariant
                u <= 9,
                grid_wf(s0),
                self.wf(),
                self@.len() == 81,
                forall|i: int| 0 <= i < 81 && is_solved(#[trigger] s0[i]) ==> self@[i] == s0[i],
                forall|i: int|
                    0 <= i < 81 && !is_solved(#[trigger] s0[i]) ==> !is_solved(self@[i])
                        && cands_of(self@[i]).len() == 9,
                forall|i: int, v: int|
                    0 <= i < 81 && 0 <= v < 9 && !is_solved(s0[i]) ==> ((#[trigger] cands_of(
                        self@[i],
                    )[v]) <==> (cands_of(s0[i])[v] && !(row_of(i) < u as int && solved_in_row(
                        s0,
                        row_of(i),
                        v,
                    )) && !(col_of(i) < u as int && solved_in_col(s0, col_of(i), v)) && !(box_of(i)
                        < u as int && solved_in_box(s0, box_of(i), v)))),
            decreases 9 - u,
        {
            let ghost uu = u as int;
            let ghost p0 = self@;
            proof {
                lemma_units_agree(s0, p0);
            }
            self.update_row(u);
            let ghost p1 = self@;
            proof {
                assert forall|i: int, v: int|
                    0 <= i < 81 && 0 <= v < 9 && !is_solved(s0[i]) implies ((#[trigger] cands_of(
                    p1[i],
                )[v]) <==> (cands_of(s0[i])[v] && !(row_of(i) < uu + 1 && solved_in_row(
                    s0,
                    row_of(i),
                    v,
                )) && !(col_of(i) < uu && solved_in_col(s0, col_of(i), v)) && !(box_of(i) < uu
                    && solved_in_box(s0, box_of(i), v)))) by {
                    lemma_box_pos(i);
                    if row_of(i) == uu {
                        assert(cands_of(p1[i])[v] == (cands_of(p0[i])[v] && !solved_in_row(
                            p0,
                            uu,
                            v,
                        )));
                    } else {
                        assert(p1[i] == p0[i]);
                    }
                }
                lemma_units_agree(s0, p1);
            }
            self.update_column(u);
            let ghost p2 = self@;
            proof {
                assert forall|i: int, v: int|
                    0 <= i < 81 && 0 <= v < 9 && !is_solved(s0[i]) implies ((#[trigger] cands_of(
                    p2[i],
                )[v]) <==> (cands_of(s0[i])[v] && !(row_of(i) < uu + 1 && solved_in_row(
                    s0,
                    row_of(i),
                    v,
                )) && !(col_of(i) < uu + 1 && solved_in_col(s0, col_of(i), v)) && !(box_of(i) < uu
                    && solved_in_box(s0, box_of(i), v)))) by {
                    lemma_box_pos(i);
                    if col_of(i) == uu {
                        assert(cands_of(p2[i])[v] == (cands_of(p1[i])[v] && !solved_in_col(
                            p1,
                            uu,
                            v,
                        )));
                    } else {
                        assert(p2[i] == p1[i]);
                    }
                }
                lemma_units_agree(s0, p2);
            }
            self.update_box(u);
            proof {
                assert forall|i: int, v: int|
                    0 <= i < 81 && 0 <= v < 9 && !is_solved(s0[i]) implies ((#[trigger] cands_of(
                    self@[i],
                )[v]) <==> (cands_of(s0[i])[v] && !(row_of(i) < uu + 1 && solved_in_row(
                    s0,
                    row_of(i),
                    v,
                )) && !(col_of(i) < uu + 1 && solved_in_col(s0, col_of(i), v)) && !(box_of(i) < uu
                    + 1 && solved_in_box(s0, box_of(i), v)))) by {
                    lemma_box_pos(i);
                    if box_of(i) == uu {
                        assert(cands_of(self@[i])[v] == (cands_of(p2[i])[v] && !solved_in_box(
                            p2,
                            uu,
                            v,
                        )));
                    } else {
                        assert(self@[i] == p2[i]);
                    }
                }
            }
            u += 1;
        }
        proof {
            assert forall|i: int| 0 <= i < 81 implies self@[i] =~~= sweep_result(s0)[i] by {
                lemma_box_pos(i);
                if !is_solved(s0[i]) {
                    assert(cands_of(self@[i]) =~= cands_of(sweep_result(s0)[i]));
                }
            }
            assert(self@ =~~= sweep_result(s0));
            lemma_units_agree(s0, self@);
        }
    }

    /// Assigns `value` to the cell at linear index `index` as a non-given
    /// solved cell, then re-propagates the one row, column and box that
    /// contain it. An out-of-range index is a defensive no-op.
    #[verifier::rlimit(30)]
    pub fn insert_value(&mut self, index: usize, value: u8)
        requires
            old(self).wf(),
            value < 9,
        ensures
            final(self).wf(),
            index < 81 ==> final(self)@ == insert_result(old(self)@, index as int, value as int),
            index >= 81 ==> final(self)@ == old(self)@,
    {
        if index >= 81 {
            return ;
        }
        let ghost s0 = self@;
        self.cells[index] = Cell::Solved(SolvedCell { value, given: false });
        let ghost s1 = self@;
        proof {
            assert(s1 =~= s0.update(
                index as int,
                CellModel::Solved { value: value as int, given: false },
            ));
            lemma_box_pos(index as int);
            assert forall|m: int| 0 <= m < 81 implies cell_wf(#[trigger] s1[m]) by {
                assert(cell_wf(s0[m]));
            }
        }
        let r = index / 9;
        let c = index % 9;
        let ghost ri = r as int;
        let ghost ci = c as int;
        let ghost bi = box_of(index as int);
        self.update_row(r);
        let ghost p1 = self@;
        proof {
            lemma_units_agree(s1, p1);
        }
        self.update_column(c);
        let ghost p2 = self@;
        proof {
            lemma_units_agree(s1, p2);
        }
        self.update_box(3 * (r / 3) + c / 3);
        proof {
            assert(p1 == row_swept(s1, ri));
            assert(p2 == col_swept(p1, ci));
            assert(self@ == box_swept(p2, bi));
            assert forall|j: int| 0 <= j < 81 implies self@[j] =~~= insert_result(
                s0,
                index as int,
                value as int,
            )[j] by {
                lemma_box_pos(j);
                if !is_solved(s1[j]) {
                    assert forall|v: int| 0 <= v < 9 implies #[trigger] cands_of(self@[j])[v] == (
                    cands_of(s1[j])[v] && !removed_by_insert(s1, index as int, j, v)) by {
                        if box_of(j) == bi {
                            assert(cands_of(self@[j])[v] == (cands_of(p2[j])[v] && !solved_in_box(
                                p2,
                                bi,
                                v,
                            )));
                        } else {
                            assert(self@[j] == p2[j]);
                        }
                        if col_of(j) == ci {
                            assert(cands_of(p2[j])[v] == (cands_of(p1[j])[v] && !solved_in_col(
                                p1,
                                ci,
                                v,
                            )));
                        } else {
                            assert(p2[j] == p1[j]);
                        }
                        if row_of(j) == ri {
                            assert(cands_of(p1[j])[v] == (cands_of(s1[j])[v] && !solved_in_row(
                                s1,
                                ri,
                                v,
                            )));
                        } else {
                            assert(p1[j] == s1[j]);
                        }
                    }
                    assert(cands_of(self@[j]) =~= cands_of(
                        insert_result(s0, index as int, value as int)[j],
                    ));
                }
            }
            assert(self@ =~~= insert_result(s0, index as int, value as int));
        }
    }
}

} // verus!
