//! The grid as a puzzle: its units, and the questions the solver asks of it.

use vstd::prelude::*;
use crate::bitcube::{determined, BitCube, Cell};
use crate::rules::{
    holds_digit, is_digit, is_done, is_grid, is_solved, known, lemma_conflict_free_is_solved,
    lemma_known_value, lemma_peers_share_unit, lemma_solved_is_conflict_free,
    lemma_unit_members_are_peers,
};
use crate::topology::{
    block_cell, col_cell, col_of, lemma_cell_units, peers, row_cell, row_of, unit_cell,
};

verus! {

/// A puzzle is a grid of candidate sets.
pub type Puzzle = BitCube;

/// Cell `p` is the one to branch on: it has more than one candidate, no
/// cell with more than one candidate has fewer, and none before it has as few.
pub open spec fn is_pivot(g: Seq<Set<int>>, p: int) -> bool {
    &&& 0 <= p < 81
    &&& g[p].len() > 1
    &&& forall|i: int| 0 <= i < 81 && (#[trigger] g[i]).len() > 1 ==> g[p].len() <= g[i].len()
    &&& forall|i: int| 0 <= i < p && (#[trigger] g[i]).len() > 1 ==> g[p].len() < g[i].len()
}

/// A grid has at most one cell to branch on.
pub proof fn lemma_pivot_unique(g: Seq<Set<int>>, p: int, q: int)
    requires
        is_pivot(g, p),
        is_pivot(g, q),
    ensures
        p == q,
{
    if p < q {
        assert(g[q].len() < g[p].len());
        assert(g[p].len() <= g[q].len());
    } else if q < p {
        assert(g[p].len() < g[q].len());
        assert(g[q].len() <= g[p].len());
    }
}

impl BitCube {
    /// The view of a grid is a grid of 81 finite sets of values below 16.
    pub proof fn lemma_view_is_grid(&self)
        ensures
            is_grid(self@),
            forall|i: int, v: int| 0 <= i < 81 && self@[i].contains(v) ==> 0 <= v < 16,
    {
        assert forall|i: int| 0 <= i < 81 implies (#[trigger] self@[i]).finite() by {
            self.storage[i].lemma_view();
        }
        assert forall|i: int, v: int| 0 <= i < 81 && self@[i].contains(v) implies 0 <= v < 16 by {
            self.storage[i].lemma_view();
        }
    }

    /// The linear index of member `i` of row `row`.
    pub fn row(row: usize, i: usize) -> (index: usize)
        requires
            row < 9,
            i < 9,
        ensures
            index == row_cell(row as int, i as int),
            index < 81,
    {
        row * 9 + i
    }

    /// The linear index of member `i` of column `col`.
    pub fn col(col: usize, i: usize) -> (index: usize)
        requires
            col < 9,
            i < 9,
        ensures
            index == col_cell(col as int, i as int),
            index < 81,
    {
        i * 9 + col
    }

    /// The linear index of member `subindex` of block `index`.
    pub fn subcell(index: usize, subindex: usize) -> (cell: usize)
        requires
            index < 9,
            subindex < 9,
        ensures
            cell == block_cell(index as int, subindex as int),
            cell < 81,
    {
        let rowblock = index / 3;
        let colblock = index % 3;
        let rowsub = subindex / 3;
        let colsub = subindex % 3;
        let row = rowblock * 3 + rowsub;
        Self::row(row, colblock * 3 + colsub)
    }

    /// The linear index of member `i` of unit `unit`: the rows are the units
    /// 0 to 8, the columns 9 to 17, the blocks 18 to 26.
    pub fn unit(unit: usize, i: usize) -> (index: usize)
        requires
            unit < 27,
            i < 9,
        ensures
            index == unit_cell(unit as int, i as int),
            index < 81,
    {
        if unit < 9 {
            Self::row(unit, i)
        } else if unit < 18 {
            Self::col(unit - 9, i)
        } else {
            Self::subcell(unit - 18, i)
        }
    }

    /// Whether every cell has exactly one candidate left.
    pub fn is_done(&self) -> (done: bool)
        ensures
            done == is_done(self@),
    {
        proof {
            self.lemma_view_is_grid();
        }
        let mut i: usize = 0;
        while i < 81
            invariant
                i <= 81,
                is_grid(self@),
                forall|j: int| 0 <= j < i ==> determined(#[trigger] self@[j]),
            decreases 81 - i,
        {
            if self[i].num_choices() != 1 {
                assert(!determined(self@[i as int]));
                return false;
            }
            i += 1;
        }
        true
    }

    /// The cell to branch on: among the cells with more than one candidate
    /// the first of those with the fewest. `None` if no cell has more than
    /// one candidate.
    pub fn get_most_constrained(&self) -> (pivot: Option<usize>)
        ensures
            match pivot {
                Some(p) => is_pivot(self@, p as int),
                None => forall|i: int| 0 <= i < 81 ==> (#[trigger] self@[i]).len() <= 1,
            },
    {
        let mut min_options: usize = 17;
        let mut min_ind: usize = 0;
        let mut i: usize = 0;
        while i < 81
            invariant
                i <= 81,
                min_options <= 17,
                min_options == 17 ==> forall|j: int|
                    0 <= j < i ==> (#[trigger] self@[j]).len() <= 1,
                min_options < 17 ==> {
                    &&& min_ind < i
                    &&& min_options > 1
                    &&& self@[min_ind as int].len() == min_options
                    &&& forall|j: int|
                        0 <= j < i && (#[trigger] self@[j]).len() > 1 ==> min_options
                            <= self@[j].len()
                    &&& forall|j: int|
                        0 <= j < min_ind && (#[trigger] self@[j]).len() > 1 ==> min_options
                            < self@[j].len()
                },
            decreases 81 - i,
        {
            let dof = self[i].num_choices();
            proof {
                self.storage[i as int].lemma_view();
            }
            if dof > 1 {
                if dof < min_options {
                    min_options = dof;
                    min_ind = i;
                }
            }
            i += 1;
        }
        if min_options < 17 {
            Some(min_ind)
        } else {
            None
        }
    }

    /// A copy of the grid in which `val` is the one candidate of cell
    /// `pivot_cell_index`.
    pub fn with_cell_choice(&self, pivot_cell_index: usize, val: u8) -> (chosen: Puzzle)
        requires
            pivot_cell_index < 81,
            val < 16,
        ensures
            chosen@ == self@.update(pivot_cell_index as int, set![val as int]),
    {
        let mut new_puzzle = self.clone();
        new_puzzle.storage[pivot_cell_index].set_value(val as usize);
        assert(new_puzzle@ =~= self@.update(pivot_cell_index as int, set![val as int]));
        new_puzzle
    }

    /// Whether the grid is solved: every cell has exactly one candidate left,
    /// and every row, column and block holds each digit of 1 to 9 exactly once.
    pub fn is_valid(&self) -> (valid: bool)
        ensures
            valid == is_solved(self@),
    {
        if !self.is_done() {
            return false;
        }
        proof {
            self.lemma_view_is_grid();
        }
        let mut unit: usize = 0;
        while unit < 27
            invariant
                unit <= 27,
                is_done(self@),
                forall|u: int, k: int|
                    0 <= u < unit && 0 <= k < 9 ==> holds_digit(self@, #[trigger] unit_cell(u, k)),
                forall|u: int, k1: int, k2: int|
                    0 <= u < unit && 0 <= k1 < k2 < 9 ==> self@[#[trigger] unit_cell(u, k1)]
                        != self@[#[trigger] unit_cell(u, k2)],
            decreases 27 - unit,
        {
            let mut seen = Cell::empty();
            let mut elem: usize = 0;
            while elem < 9
                invariant
                    elem <= 9,
                    unit < 27,
                    is_done(self@),
                    forall|k: int|
                        0 <= k < elem ==> holds_digit(self@, #[trigger] unit_cell(unit as int, k)),
                    forall|k: int|
                        0 <= k < elem ==> self@[#[trigger] unit_cell(unit as int, k)].subset_of(
                            seen@,
                        ),
                    forall|v: int|
                        seen@.contains(v) ==> exists|k: int|
                            0 <= k < elem && self@[#[trigger] unit_cell(unit as int, k)] == set![v],
                    forall|k1: int, k2: int|
                        0 <= k1 < k2 < elem ==> self@[#[trigger] unit_cell(unit as int, k1)]
                            != self@[#[trigger] unit_cell(unit as int, k2)],
                decreases 9 - elem,
            {
                let index = Self::unit(unit, elem);
                assert(determined(self@[index as int]));
                let value = self[index].get_value();
                if value < 1 || value > 9 {
                    proof {
                        if is_solved(self@) {
                            lemma_solved_is_conflict_free(self@);
                            assert(holds_digit(self@, index as int));
                            let d = choose|d: int|
                                is_digit(d) && #[trigger] known(self@, index as int, d);
                            lemma_known_value(d, value as int);
                        }
                    }
                    return false;
                }
                if seen.get(value) {
                    proof {
                        let k = choose|k: int|
                            0 <= k < elem && self@[#[trigger] unit_cell(unit as int, k)]
                                == set![value as int];
                        lemma_unit_members_are_peers(unit as int, k, elem as int);
                        if is_solved(self@) {
                            lemma_solved_is_conflict_free(self@);
                        }
                    }
                    return false;
                }
                let ghost before = seen@;
                seen.set(value);
                proof {
                    assert(known(self@, index as int, value as int));
                    assert forall|k1: int, k2: int| 0 <= k1 < k2 < elem + 1 implies self@[#[trigger] unit_cell(
                        unit as int,
                        k1,
                    )] != self@[#[trigger] unit_cell(unit as int, k2)] by {
                        if k2 == elem {
                            assert(self@[unit_cell(unit as int, k1)].subset_of(before));
                            if self@[unit_cell(unit as int, k1)] == self@[index as int] {
                                assert(self@[index as int].contains(value as int));
                            }
                        }
                    }
                    assert forall|v: int| seen@.contains(v) implies exists|k: int|
                        0 <= k < elem + 1 && self@[#[trigger] unit_cell(unit as int, k)]
                            == set![v] by {
                        if v == value {
                            assert(self@[unit_cell(unit as int, elem as int)] == set![v]);
                        } else {
                            let k = choose|k: int|
                                0 <= k < elem && self@[#[trigger] unit_cell(unit as int, k)]
                                    == set![v];
                            assert(0 <= k < elem + 1);
                        }
                    }
                }
                elem += 1;
            }
            unit += 1;
        }
        proof {
            assert forall|i: int| 0 <= i < 81 implies #[trigger] holds_digit(self@, i) by {
                lemma_cell_units(i);
                assert(unit_cell(row_of(i), col_of(i)) == i);
            }
            assert forall|i: int, j: int| #[trigger] peers(i, j) implies self@[i] != self@[j] by {
                let (u, k1, k2) = lemma_peers_share_unit(i, j);
                if k1 < k2 {
                    assert(self@[unit_cell(u, k1)] != self@[unit_cell(u, k2)]);
                } else {
                    assert(self@[unit_cell(u, k2)] != self@[unit_cell(u, k1)]);
                }
            }
            lemma_conflict_free_is_solved(self@);
        }
        true
    }
}

} // verus!
