//! The minimizer: reverts solved cells to unknown in a random order, keeping
//! a removal only when the search engine confirms the solution is still
//! unique, and the uniqueness-confirmation run itself.

use rand::seq::SliceRandom;
use vstd::prelude::*;

use crate::cell::Cell;
use crate::cell::CellModel;
use crate::cell::cell_wf;
use crate::cell::is_solved;
use crate::cell::value_of;
use crate::grid::Puzzle;
use crate::grid::sees;
use crate::propagate::sweep_result;
use crate::solve::consistent;
use crate::solve::full_solution;
use crate::solve::lemma_full_refines_self;
use crate::solve::lemma_refines_no_dup;
use crate::solve::lemma_sweep_refines;
use crate::solve::lemma_sweep_refines_back;
use crate::solve::no_dup_solved;
use crate::solve::refines;
use crate::solve::refines_at;
use crate::solve::same_values;
use crate::solve::swept;
use crate::solve::unique_solution;

verus! {

broadcast use
    vstd::array::group_array_axioms,
    crate::grid::lemma_puzzle_view,
    vstd::seq_lib::group_to_multiset_ensures;

/// The state of a cell whose value was reverted to unknown: all nine values
/// possible again.
pub open spec fn fresh_candidates() -> CellModel {
    CellModel::Candidates(Seq::new(9, |v: int| true))
}

/// Relies on `rand::seq::SliceRandom::shuffle` with `rand::rng()`: a
/// Fisher-Yates shuffle permutes the elements of the slice in place, so
/// whatever order comes back holds exactly the elements that went in.
#[verifier::external_body]
fn shuffle_indices(v: &mut Vec<usize>)
    ensures
        final(v)@.to_multiset() == old(v)@.to_multiset(),
{
    v.as_mut_slice().shuffle(&mut rand::rng());
}

/// The grid has at least two different completions.
pub open spec fn two_solutions(s: Seq<CellModel>) -> bool {
    exists|s1: Seq<CellModel>, s2: Seq<CellModel>|
        full_solution(s1) && full_solution(s2) && (#[trigger] refines(s1, s)) && (#[trigger] refines(
            s2,
            s,
        )) && !same_values(s1, s2)
}

/// `b` is `a` with some cells reverted to unknown: every cell of `b` either
/// equals the cell of `a` or is a fresh all-true candidate set.
pub open spec fn reverts_to(a: Seq<CellModel>, b: Seq<CellModel>) -> bool {
    forall|i: int| 0 <= i < 81 ==> ((#[trigger] b[i]) == a[i] || b[i] == fresh_candidates())
}

/// Reverting cells only weakens a grid: whatever completes the grid still
/// completes it with cells reverted.
pub proof fn lemma_revert_refines(sol: Seq<CellModel>, a: Seq<CellModel>, b: Seq<CellModel>)
    requires
        refines(sol, a),
        full_solution(sol),
        reverts_to(a, b),
    ensures
        refines(sol, b),
{
    assert forall|i: int| 0 <= i < 81 implies refines_at(#[trigger] sol[i], b[i]) by {
        assert(refines_at(sol[i], a[i]));
        assert(cell_wf(sol[i]));
    }
}

/// Ambiguity survives weakening: a grid with two different completions
/// keeps both of them when further cells are reverted to unknown.
pub proof fn lemma_two_solutions_weaken(a: Seq<CellModel>, b: Seq<CellModel>)
    requires
        two_solutions(a),
        reverts_to(a, b),
    ensures
        two_solutions(b),
{
    let (s1, s2) = choose|s1: Seq<CellModel>, s2: Seq<CellModel>|
        full_solution(s1) && full_solution(s2) && (#[trigger] refines(s1, a)) && (#[trigger] refines(
            s2,
            a,
        )) && !same_values(s1, s2);
    lemma_revert_refines(s1, a, b);
    lemma_revert_refines(s2, a, b);
}

/// A fully solved consistent grid is its own unique completion.
pub proof fn lemma_full_unique(s: Seq<CellModel>)
    requires
        full_solution(s),
    ensures
        unique_solution(s),
{
    lemma_full_refines_self(s);
    assert forall|s1: Seq<CellModel>, s2: Seq<CellModel>|
        full_solution(s1) && (#[trigger] refines(s1, s)) && full_solution(s2) && (#[trigger] refines(
            s2,
            s,
        )) implies same_values(s1, s2) by {
        assert forall|i: int| 0 <= i < 81 implies (is_solved(#[trigger] s1[i]) <==> is_solved(
            s2[i],
        )) && value_of(s1[i]) == value_of(s2[i]) by {
            assert(refines_at(s1[i], s[i]));
            assert(refines_at(s2[i], s[i]));
        }
    }
}

/// A sweep does not touch solved cells, so it cannot introduce a duplicated
/// solved value.
pub proof fn lemma_sweep_no_dup(s: Seq<CellModel>)
    requires
        s.len() == 81,
        no_dup_solved(s),
    ensures
        no_dup_solved(sweep_result(s)),
{
    let t = sweep_result(s);
    assert forall|i: int, j: int|
        0 <= i < 81 && 0 <= j < 81 && i != j && sees(i, j) && is_solved(#[trigger] t[i])
            && is_solved(#[trigger] t[j]) implies value_of(t[i]) != value_of(t[j]) by {
        assert(t[i] == s[i] && t[j] == s[j]);
    }
}

/// Reverting one cell to unknown removes a solved cell, so no duplicated
/// solved value can appear.
pub proof fn lemma_remove_no_dup(s: Seq<CellModel>, idx: int)
    requires
        no_dup_solved(s),
        s.len() == 81,
        0 <= idx < 81,
    ensures
        no_dup_solved(s.update(idx, fresh_candidates())),
{
    let t = s.update(idx, fresh_candidates());
    assert forall|i: int, j: int|
        0 <= i < 81 && 0 <= j < 81 && i != j && sees(i, j) && is_solved(#[trigger] t[i])
            && is_solved(#[trigger] t[j]) implies value_of(t[i]) != value_of(t[j]) by {
        assert(!is_solved(t[idx]));
        assert(t[i] == s[i] && t[j] == s[j]);
    }
}

/// A grid with some full completion has no duplicated solved value.
pub proof fn lemma_unique_no_dup(s: Seq<CellModel>)
    requires
        unique_solution(s),
    ensures
        no_dup_solved(s),
{
    let sol = choose|sol: Seq<CellModel>| #[trigger] full_solution(sol) && refines(sol, s);
    lemma_refines_no_dup(sol, s);
}

impl Puzzle {
    /// Sweeps a copy of a uniquely solvable grid and searches it with a cap
    /// of two: exactly one completion comes back, and it completes the grid.
    pub fn confirm_unique(&self) -> (out: Vec<Puzzle>)
        requires
            self.wf(),
            unique_solution(self@),
        ensures
            out@.len() == 1,
            full_solution(out@[0]@),
            refines(out@[0]@, self@),
    {
        let ghost s = self@;
        let mut trial = self.clone();
        trial.sweep();
        let mut out: Vec<Puzzle> = Vec::new();
        proof {
            lemma_unique_no_dup(s);
            lemma_sweep_no_dup(s);
            assert(swept(trial@));
            assert(consistent(trial@));
        }
        trial.recursive_solve(&mut out, 2);
        proof {
            assert forall|k: int| 0 <= k < out@.len() implies full_solution(
                (#[trigger] out@[k])@,
            ) && refines(out@[k]@, s) by {
                lemma_sweep_refines_back(out@[k]@, s);
            }
            let sol = choose|sol: Seq<CellModel>| #[trigger] full_solution(sol) && refines(sol, s);
            lemma_sweep_refines(sol, s);
            if out@.len() < 2 {
                // every completion was found, and one exists
                assert(exists|k: int|
                    0 <= k < out@.len() && same_values((#[trigger] out@[k])@, sol));
                assert(out@.len() == 1);
            } else {
                // two found completions of a uniquely solvable grid would
                // have to agree, but the search never records one twice
                assert(out@.len() == 2);
                assert(!same_values(out@[0]@, out@[1]@));
                assert(same_values(out@[0]@, out@[1]@)) by {
                    assert(full_solution(out@[0]@) && refines(out@[0]@, s));
                    assert(full_solution(out@[1]@) && refines(out@[1]@, s));
                }
            }
        }
        out
    }

    /// Walks the 81 cells in a uniformly random order; each solved cell is
    /// tentatively reverted to unknown and the removal is kept only when a
    /// bounded search still finds exactly one completion. A uniquely
    /// solvable grid - in particular any fully solved grid - stays uniquely
    /// solvable; every cell either keeps its state or is reverted from
    /// solved to all-candidates; and the result is locally irreducible: no
    /// single remaining solved cell can be reverted without the grid
    /// gaining a second completion.
    #[verifier::rlimit(30)]
    pub fn minimize_puzzle(&mut self)
        requires
            old(self).wf(),
        ensures
            final(self).wf(),
            unique_solution(old(self)@) ==> unique_solution(final(self)@),
            full_solution(old(self)@) ==> unique_solution(final(self)@),
            forall|i: int|
                0 <= i < 81 ==> (#[trigger] final(self)@[i] == old(self)@[i] || (is_solved(
                    old(self)@[i],
                ) && final(self)@[i] == fresh_candidates())),
            unique_solution(old(self)@) ==> (forall|i: int|
                0 <= i < 81 && is_solved(final(self)@[i]) ==> #[trigger] two_solutions(
                    final(self)@.update(i, fresh_candidates()),
                )),
    {
        let ghost s0 = self@;
        proof {
            if full_solution(s0) {
                lemma_full_unique(s0);
            }
        }
        let mut order: Vec<usize> = Vec::new();
        let mut i: usize = 0;
        while i < 81
            invariant
                i <= 81,
                order@.len() == i,
                forall|k: int| 0 <= k < i ==> #[trigger] order@[k] == k,
            decreases 81 - i,
        {
            order.push(i);
            i += 1;
        }
        let ghost plain = order@;
        shuffle_indices(&mut order);
        proof {
            assert(plain.to_multiset().len() == plain.len());
            assert(order@.to_multiset().len() == order@.len());
            assert(order@.len() == 81);
            assert forall|k: int| 0 <= k < 81 implies #[trigger] order@[k] < 81 by {
                assert(order@.to_multiset().contains(order@[k]));
                assert(plain.contains(order@[k]));
            }
        }
        let mut t: usize = 0;
        while t < 81
            invariant
                t <= 81,
                self.wf(),
                s0 == old(self)@,
                order@.len() == 81,
                forall|k: int| 0 <= k < 81 ==> #[trigger] order@[k] < 81,
                unique_solution(s0) ==> unique_solution(self@),
                forall|i: int|
                    0 <= i < 81 ==> (#[trigger] self@[i] == s0[i] || (is_solved(s0[i]) && self@[i]
                        == fresh_candidates())),
                unique_solution(s0) ==> (forall|j: int|
                    0 <= j < t && is_solved(self@[order@[j] as int]) ==> #[trigger] two_solutions(
                        self@.update(order@[j] as int, fresh_candidates()),
                    )),
            decreases 81 - t,
        {
            let idx = order[t];
            let cell = self.cells[idx];
            match cell {
                Cell::Solved(sc) => {
                    let ghost before = self@;
                    proof {
                        assert(before[idx as int] == cell@);
                        assert(before[idx as int] == s0[idx as int]);
                    }
                    self.cells[idx] = Cell::Candidates([true; 9]);
                    let ghost rm = self@;
                    proof {
                        assert(rm =~~= before.update(idx as int, fresh_candidates()));
                        assert forall|m: int| 0 <= m < 81 implies cell_wf(#[trigger] rm[m]) by {
                            assert(cell_wf(before[m]));
                        }
                    }
                    let mut trial = self.clone();
                    let mut result: Vec<Puzzle> = Vec::new();
                    trial.sweep();
                    proof {
                        if unique_solution(s0) {
                            lemma_unique_no_dup(before);
                            lemma_remove_no_dup(before, idx as int);
                            lemma_sweep_no_dup(rm);
                            assert(swept(trial@));
                            assert(consistent(trial@));
                        }
                    }
                    trial.recursive_solve(&mut result, 200);
                    if result.len() != 1 {
                        let ghost found = result@;
                        self.cells[idx] = Cell::Solved(sc);
                        proof {
                            assert(self@ =~= before);
                            if unique_solution(s0) {
                                // the trial showed ambiguity: without this
                                // cell the grid has two completions
                                if found.len() >= 2 {
                                    lemma_sweep_refines_back(found[0]@, rm);
                                    lemma_sweep_refines_back(found[1]@, rm);
                                    assert(!same_values(found[0]@, found[1]@));
                                    assert(two_solutions(rm));
                                } else {
                                    // a completion of the intact grid also
                                    // completes the weakened one, and the
                                    // uncapped search finds every completion:
                                    // an empty result cannot happen
                                    let sol = choose|sol: Seq<CellModel>|
                                        #[trigger] full_solution(sol) && refines(sol, before);
                                    assert(reverts_to(before, rm));
                                    lemma_revert_refines(sol, before, rm);
                                    lemma_sweep_refines(sol, rm);
                                    assert(found.len() == 0);
                                    assert(exists|k: int|
                                        0 <= k < found.len() && same_values(
                                            (#[trigger] found[k])@,
                                            sol,
                                        ));
                                    assert(two_solutions(rm));
                                }
                                assert forall|j: int|
                                    0 <= j < t as int + 1 && is_solved(
                                        self@[order@[j] as int],
                                    ) implies #[trigger] two_solutions(
                                    self@.update(order@[j] as int, fresh_candidates()),
                                ) by {
                                    let oj = order@[j] as int;
                                    if j < t as int {
                                        assert(two_solutions(
                                            before.update(oj, fresh_candidates()),
                                        ));
                                    } else {
                                        assert(oj == idx as int);
                                        assert(self@.update(oj, fresh_candidates()) == rm);
                                    }
                                }
                            }
                        }
                    } else {
                        proof {
                            if unique_solution(s0) {
                                // one completion came back under a cap of
                                // 200, so the search was exhaustive: the
                                // reduced grid is still uniquely solvable
                                let r0 = result@[0]@;
                                assert(refines(r0, sweep_result(rm)));
                                lemma_sweep_refines_back(r0, rm);
                                assert forall|s1: Seq<CellModel>, s2: Seq<CellModel>|
                                    full_solution(s1) && (#[trigger] refines(s1, rm))
                                        && full_solution(s2) && (#[trigger] refines(
                                    s2,
                                    rm,
                                )) implies same_values(s1, s2) by {
                                    lemma_sweep_refines(s1, rm);
                                    lemma_sweep_refines(s2, rm);
                                    assert(same_values(r0, s1));
                                    assert(same_values(r0, s2));
                                    assert forall|i: int| 0 <= i < 81 implies (is_solved(
                                        #[trigger] s1[i],
                                    ) <==> is_solved(s2[i])) && value_of(s1[i]) == value_of(
                                        s2[i],
                                    ) by {
                                        assert((is_solved(r0[i]) <==> is_solved(s1[i])) && value_of(
                                            r0[i],
                                        ) == value_of(s1[i]));
                                        assert((is_solved(r0[i]) <==> is_solved(s2[i])) && value_of(
                                            r0[i],
                                        ) == value_of(s2[i]));
                                    }
                                }
                                assert(unique_solution(rm));
                                // removals rejected earlier stay rejected:
                                // the grid only got weaker
                                assert forall|j: int|
                                    0 <= j < t as int + 1 && is_solved(
                                        self@[order@[j] as int],
                                    ) implies #[trigger] two_solutions(
                                    self@.update(order@[j] as int, fresh_candidates()),
                                ) by {
                                    let oj = order@[j] as int;
                                    assert(self@[idx as int] == fresh_candidates());
                                    if j < t as int {
                                        assert(oj != idx as int);
                                        assert(self@[oj] == before[oj]);
                                        assert(two_solutions(
                                            before.update(oj, fresh_candidates()),
                                        ));
                                        assert(reverts_to(
                                            before.update(oj, fresh_candidates()),
                                            self@.update(oj, fresh_candidates()),
                                        ));
                                        lemma_two_solutions_weaken(
                                            before.update(oj, fresh_candidates()),
                                            self@.update(oj, fresh_candidates()),
                                        );
                                    }
                                }
                            }
                            assert forall|i: int|
                                0 <= i < 81 implies #[trigger] self@[i] == s0[i] || (is_solved(
                                s0[i],
                            ) && self@[i] == fresh_candidates()) by {
                                if i != idx as int {
                                    assert(self@[i] == before[i]);
                                }
                            }
                        }
                    }
                },
                Cell::Candidates(_) => {},
            }
            t += 1;
        }
        proof {
            if unique_solution(s0) {
                // the shuffled order is a permutation, so every index was
                // tried: the final grid is locally irreducible
                assert forall|i: int|
                    0 <= i < 81 && is_solved(self@[i]) implies #[trigger] two_solutions(
                    self@.update(i, fresh_candidates()),
                ) by {
                    assert(plain[i] == i as usize);
                    assert(plain.contains(i as usize));
                    assert(order@.to_multiset().contains(i as usize));
                    assert(order@.contains(i as usize));
                    let j = choose|j: int| 0 <= j < order@.len() && order@[j] == i as usize;
                    assert(is_solved(self@[order@[j] as int]));
                    assert(two_solutions(self@.update(order@[j] as int, fresh_candidates())));
                }
            }
        }
    }
}

} // verus!
