//! The solver: a global pass, then a depth-first search that branches on the
//! most constrained cell and follows every choice through the peers.

use vstd::prelude::*;
use vstd::set_lib::lemma_len_subset;
use crate::bitcube::{determined, digits, lemma_only_member, lemma_value_of, value_of};
use crate::global_pass::{
    lemma_sweep_fixed_point, lemma_sweep_keeps_solutions, lemma_sweep_refines, stable, sweep,
    update_constraints,
};
use crate::pointwise_pass::{
    candidates_left, eliminated, fresh, lemma_determined_persists, lemma_fewer_candidates,
    can_propagate, lemma_pass_keeps_solutions, lemma_pass_result_unique,
    lemma_settled_persists, propagated, settled, update_constraints_pointwise,
};
use crate::puzzle::{is_pivot, lemma_pivot_unique, Puzzle};
use crate::rules::{
    conflict_free, holds_digit, is_digit, is_done, is_grid, is_solved, known,
    lemma_conflict_free_is_solved, lemma_known_value, lemma_solved_is_conflict_free, refines,
    solution_of, solvable,
};
use crate::topology::{peers, Neighbors};

verus! {

/// The search has come to an end without a solved grid.
#[derive(Debug, Clone, Copy, PartialEq, Eq, Structural)]
pub struct NoSolution;

/// Every candidate of every cell is a digit of 1 to 9.
pub open spec fn within_digits(g: Seq<Set<int>>) -> bool {
    g.len() == 81 && forall|i: int| 0 <= i < 81 ==> (#[trigger] g[i]).subset_of(digits())
}

/// What the solver returns for the puzzle `p`: the grid that the search
/// finds, which is a solution of `p`, or `NoSolution` if it finds none, which
/// for a puzzle whose candidates are digits of 1 to 9 means that the puzzle
/// has no solution.
pub open spec fn solves(p: Seq<Set<int>>, solved: Result<Puzzle, NoSolution>) -> bool {
    match solved {
        Ok(grid) => solution_found(p) == Some(grid@) && solution_of(grid@, p),
        Err(_) => solution_found(p) is None && (within_digits(p) ==> !solvable(p)),
    }
}

/// The cell to branch on, in a grid that has one.
pub open spec fn pivot_of(g: Seq<Set<int>>) -> int {
    choose|p: int| is_pivot(g, p)
}

/// The grid in which the assignment of `v` to cell `index` has been followed
/// through from `g`, where there is one.
pub open spec fn followed(g: Seq<Set<int>>, index: int, v: int) -> Seq<Set<int>> {
    choose|h: Seq<Set<int>>| eliminated(g, h, index, v) && propagated(g, h, index, v)
}

/// The grid that the search completes from `g`: `g` itself if every cell is
/// determined, else what the candidates of the pivot give, tried in
/// ascending order; `None` if no cell can be branched on or no candidate
/// leads to a completed grid.
pub open spec fn search_result(g: Seq<Set<int>>) -> Option<Seq<Set<int>>>
    decreases candidates_left(g), 11int,
{
    if is_done(g) {
        Some(g)
    } else if exists|p: int| is_pivot(g, p) {
        trial_result(g, pivot_of(g), 1)
    } else {
        None
    }
}

/// The grid that the search completes from `g` with one of the candidates
/// from `val` upwards in the cell `p`: the result of the first of them that
/// can be followed through the peers and from there leads to a completed
/// grid. A trial leaves fewer candidates than `g` has wherever the search
/// runs; the comparison makes the definition well founded.
pub open spec fn trial_result(g: Seq<Set<int>>, p: int, val: int) -> Option<Seq<Set<int>>>
    decreases candidates_left(g), 10 - val,
{
    if val < 1 || val >= 10 {
        None
    } else if g[p].contains(val) && can_propagate(g.update(p, set![val]), p, val) {
        let tried = followed(g.update(p, set![val]), p, val);
        if candidates_left(tried) < candidates_left(g) {
            match search_result(tried) {
                Some(grid) => Some(grid),
                None => trial_result(g, p, val + 1),
            }
        } else {
            trial_result(g, p, val + 1)
        }
    } else {
        trial_result(g, p, val + 1)
    }
}

/// The grid that the solver returns for the puzzle `p`: what the search
/// completes after the global pass, if that is a solved grid.
pub open spec fn solution_found(p: Seq<Set<int>>) -> Option<Seq<Set<int>>> {
    match search_result(sweep(p, 27)) {
        Some(grid) => if is_solved(grid) {
            Some(grid)
        } else {
            None
        },
        None => None,
    }
}

/// `g` refines `root`, and every cell that is determined in `g` and was not
/// in `root` is settled.
pub open spec fn anchored(g: Seq<Set<int>>, root: Seq<Set<int>>) -> bool {
    &&& refines(g, root)
    &&& forall|i: int| #[trigger] fresh(root, g, i) ==> settled(g, i)
}

/// A solved grid that keeps to the candidates of `g` holds one of them in
/// every cell.
proof fn lemma_solution_cell(s: Seq<Set<int>>, g: Seq<Set<int>>, i: int) -> (d: int)
    requires
        solution_of(s, g),
        0 <= i < 81,
    ensures
        is_digit(d),
        s[i] == set![d],
        g[i].contains(d),
{
    lemma_solved_is_conflict_free(s);
    assert(holds_digit(s, i));
    let d = choose|d: int| is_digit(d) && #[trigger] known(s, i, d);
    assert(s[i].subset_of(g[i]));
    assert(s[i].contains(d));
    d
}

/// A grid with a cell that has no candidate has no solution.
proof fn lemma_dead_cell(g: Seq<Set<int>>, i: int)
    requires
        0 <= i < 81,
        g[i].finite(),
        g[i].len() == 0,
    ensures
        !solvable(g),
{
    if solvable(g) {
        let s = choose|s: Seq<Set<int>>| solution_of(s, g);
        let d = lemma_solution_cell(s, g, i);
    }
}

/// The state after a choice that has been followed through is anchored as
/// the state before the choice was.
proof fn lemma_choice_anchored(
    root: Seq<Set<int>>,
    g: Seq<Set<int>>,
    chosen: Seq<Set<int>>,
    after: Seq<Set<int>>,
    pivot: int,
    val: int,
)
    requires
        is_grid(root),
        anchored(g, root),
        0 <= pivot < 81,
        g[pivot].contains(val),
        chosen == g.update(pivot, set![val]),
        eliminated(chosen, after, pivot, val),
        propagated(chosen, after, pivot, val),
    ensures
        anchored(after, root),
        refines(after, g),
{
    lemma_fewer_candidates(g, root);
    assert(refines(chosen, g)) by {
        assert forall|i: int| 0 <= i < 81 implies (#[trigger] chosen[i]).subset_of(g[i]) by {}
    }
    lemma_fewer_candidates(chosen, g);
    assert forall|i: int| 0 <= i < 81 implies (#[trigger] after[i]).subset_of(g[i])
        && after[i].subset_of(root[i]) by {
        assert(after[i].subset_of(chosen[i]));
        assert(chosen[i].subset_of(g[i]));
        assert(g[i].subset_of(root[i]));
    }
    assert forall|i: int| #[trigger] fresh(root, after, i) implies settled(after, i) by {
        if i == pivot {
            lemma_determined_persists(chosen, after, pivot);
            lemma_value_of(after[pivot], val);
            assert forall|j: int| #[trigger] peers(pivot, j) implies after[j].len() > 0
                && !after[j].contains(value_of(after[pivot])) by {}
        } else if determined(chosen[i]) {
            assert(chosen[i] == g[i]);
            assert(fresh(root, g, i));
            assert(settled(g, i));
            assert(settled(chosen, i)) by {
                assert forall|j: int| #[trigger] peers(i, j) implies chosen[j].len() > 0
                    && !chosen[j].contains(value_of(chosen[i])) by {
                    assert(g[j].len() > 0 && !g[j].contains(value_of(g[i])));
                    assert(chosen[j].subset_of(g[j]));
                }
            }
            lemma_settled_persists(chosen, after, i);
        } else {
            assert(fresh(chosen, after, i));
        }
    }
}

/// A grid that the search has completed and that is not solved shows that
/// the grid the search began with has no solution.
proof fn lemma_unsolved_leaf(root: Seq<Set<int>>, g: Seq<Set<int>>)
    requires
        is_grid(root),
        within_digits(root),
        anchored(g, root),
        is_done(g),
        !is_solved(g),
    ensures
        !solvable(root),
{
    assert forall|i: int| 0 <= i < 81 implies #[trigger] holds_digit(g, i) by {
        let d = g[i].choose();
        assert(determined(g[i]));
        assert(g[i].contains(d));
        lemma_only_member(g[i], d);
        assert(g[i].subset_of(root[i]));
        assert(root[i].subset_of(digits()));
        assert(digits().contains(d));
        assert(is_digit(d) && known(g, i, d));
    }
    if conflict_free(g) {
        lemma_conflict_free_is_solved(g);
    } else {
        let (i, j) = choose|i: int, j: int| #[trigger] peers(i, j) && g[i] == g[j];
        let d = g[i].choose();
        assert(determined(g[i]) && determined(g[j]));
        assert(g[i].contains(d));
        lemma_value_of(g[i], d);
        lemma_value_of(g[j], d);
        // neither cell is settled, so both were determined from the start
        assert(peers(j, i));
        assert(!settled(g, i));
        assert(!settled(g, j));
        assert(!fresh(root, g, i) && !fresh(root, g, j));
        assert(g[i].subset_of(root[i]) && g[j].subset_of(root[j]));
        lemma_only_member(root[i], d);
        lemma_only_member(root[j], d);
        if solvable(root) {
            let s = choose|s: Seq<Set<int>>| solution_of(s, root);
            let di = lemma_solution_cell(s, root, i);
            let dj = lemma_solution_cell(s, root, j);
            lemma_solved_is_conflict_free(s);
            assert(s[i] == s[j]);
        }
    }
}

/// The search. If every cell is determined, the grid is the result.
/// Otherwise the most constrained cell is the pivot: each of its candidates,
/// in ascending order, is tried on a copy of the grid and followed through
/// the peers, and the first grid that a trial completes is the result.
fn inner_solve(puzzle: Puzzle, neighbors: &Neighbors, Ghost(root): Ghost<Seq<Set<int>>>) -> (found:
    Option<Puzzle>)
    requires
        is_grid(root),
        anchored(puzzle@, root),
    ensures
        match found {
            Some(grid) => {
                &&& search_result(puzzle@) == Some(grid@)
                &&& is_done(grid@)
                &&& refines(grid@, puzzle@)
                &&& anchored(grid@, root)
            },
            None => search_result(puzzle@) is None && !solvable(puzzle@),
        },
    decreases candidates_left(puzzle@),
{
    if puzzle.is_done() {
        return Some(puzzle);
    }
    proof {
        puzzle.lemma_view_is_grid();
    }
    let pivot_cell_index = match puzzle.get_most_constrained() {
        Some(index) => index,
        None => {
            proof {
                let i = choose|i: int| 0 <= i < 81 && !determined(#[trigger] puzzle@[i]);
                lemma_dead_cell(puzzle@, i);
            }
            return None;
        },
    };
    let opts = puzzle.storage[pivot_cell_index];
    proof {
        lemma_pivot_unique(puzzle@, pivot_cell_index as int, pivot_of(puzzle@));
    }
    let mut val: usize = 1;
    while val < 10
        invariant
            1 <= val <= 10,
            pivot_cell_index < 81,
            is_grid(root),
            is_grid(puzzle@),
            anchored(puzzle@, root),
            opts@ == puzzle@[pivot_cell_index as int],
            puzzle@[pivot_cell_index as int].len() > 1,
            !is_done(puzzle@),
            search_result(puzzle@) == trial_result(
                puzzle@,
                pivot_cell_index as int,
                val as int,
            ),
            forall|s: Seq<Set<int>>, d: int|
                #[trigger] solution_of(s, puzzle@) && 1 <= d < val ==> !#[trigger] known(
                    s,
                    pivot_cell_index as int,
                    d,
                ),
        decreases 10 - val,
    {
        if opts.get(val) {
            let mut new_puzzle = puzzle.with_cell_choice(pivot_cell_index, val as u8);
            let ghost chosen = new_puzzle@;
            let propagated = update_constraints_pointwise(
                &mut new_puzzle,
                neighbors,
                pivot_cell_index,
                val as u8,
            );
            proof {
                assert(refines(chosen, puzzle@)) by {
                    assert forall|i: int| 0 <= i < 81 implies (#[trigger] chosen[i]).subset_of(
                        puzzle@[i],
                    ) by {}
                }
                assert forall|s: Seq<Set<int>>|
                    solution_of(s, puzzle@) && known(
                        s,
                        pivot_cell_index as int,
                        val as int,
                    ) implies solution_of(s, new_puzzle@) && propagated by {
                    assert(solution_of(s, chosen)) by {
                        assert forall|i: int| 0 <= i < 81 implies (#[trigger] s[i]).subset_of(
                            chosen[i],
                        ) by {
                            assert(s[i].subset_of(puzzle@[i]));
                        }
                    }
                    lemma_pass_keeps_solutions(
                        chosen,
                        new_puzzle@,
                        pivot_cell_index as int,
                        val as int,
                        s,
                    );
                }
            }
            if propagated {
                proof {
                    lemma_pass_result_unique(
                        chosen,
                        new_puzzle@,
                        followed(chosen, pivot_cell_index as int, val as int),
                        pivot_cell_index as int,
                        val as int,
                    );
                    lemma_choice_anchored(
                        root,
                        puzzle@,
                        chosen,
                        new_puzzle@,
                        pivot_cell_index as int,
                        val as int,
                    );
                    lemma_fewer_candidates(new_puzzle@, puzzle@);
                    assert(new_puzzle@[pivot_cell_index as int].subset_of(
                        chosen[pivot_cell_index as int],
                    ));
                    lemma_len_subset(
                        new_puzzle@[pivot_cell_index as int],
                        chosen[pivot_cell_index as int],
                    );
                }
                let ghost tried = new_puzzle@;
                if let Some(soln) = inner_solve(new_puzzle, neighbors, Ghost(root)) {
                    proof {
                        assert forall|i: int| 0 <= i < 81 implies (#[trigger] soln@[i]).subset_of(
                            puzzle@[i],
                        ) by {
                            assert(soln@[i].subset_of(tried[i]));
                            assert(tried[i].subset_of(puzzle@[i]));
                        }
                    }
                    return Some(soln);
                }
            }
        } else {
            proof {
                assert forall|s: Seq<Set<int>>| solution_of(s, puzzle@) implies !known(
                    s,
                    pivot_cell_index as int,
                    val as int,
                ) by {
                    let d = lemma_solution_cell(s, puzzle@, pivot_cell_index as int);
                    if known(s, pivot_cell_index as int, val as int) {
                        lemma_known_value(d, val as int);
                    }
                }
            }
        }
        val += 1;
    }
    proof {
        if solvable(puzzle@) {
            let s = choose|s: Seq<Set<int>>| solution_of(s, puzzle@);
            let d = lemma_solution_cell(s, puzzle@, pivot_cell_index as int);
            assert(known(s, pivot_cell_index as int, d));
        }
    }
    None
}

/// Solves a puzzle: the global pass, the search, and the check of what the
/// search has found. The result is a solved grid that keeps to the
/// candidates of the puzzle. For a puzzle whose candidates are digits of 1 to
/// 9, `NoSolution` is returned only if there is no such grid.
pub fn solve_puzzle(puzzle: Puzzle, neighbors: &Neighbors) -> (solved: Result<Puzzle, NoSolution>)
    ensures
        solves(puzzle@, solved),
{
    let mut result = puzzle.clone();
    update_constraints(&mut result);
    let ghost root = result@;
    proof {
        puzzle.lemma_view_is_grid();
        lemma_sweep_refines(puzzle@, 27);
        assert forall|s: Seq<Set<int>>| solution_of(s, puzzle@) implies solution_of(s, root) by {
            lemma_sweep_keeps_solutions(puzzle@, 27, s);
        }
    }
    match inner_solve(result, neighbors, Ghost(root)) {
        Some(grid) => {
            if grid.is_valid() {
                proof {
                    assert forall|i: int| 0 <= i < 81 implies (#[trigger] grid@[i]).subset_of(
                        puzzle@[i],
                    ) by {
                        assert(grid@[i].subset_of(root[i]));
                        assert(root[i].subset_of(puzzle@[i]));
                    }
                }
                Ok(grid)
            } else {
                proof {
                    if within_digits(puzzle@) {
                        assert forall|i: int| 0 <= i < 81 implies (#[trigger] root[i]).subset_of(
                            digits(),
                        ) by {
                            assert(root[i].subset_of(puzzle@[i]));
                            assert(puzzle@[i].subset_of(digits()));
                        }
                        lemma_unsolved_leaf(root, grid@);
                        if solvable(puzzle@) {
                            let s = choose|s: Seq<Set<int>>| solution_of(s, puzzle@);
                            assert(solution_of(s, root));
                        }
                    }
                }
                Err(NoSolution)
            }
        },
        None => {
            proof {
                if solvable(puzzle@) {
                    let s = choose|s: Seq<Set<int>>| solution_of(s, puzzle@);
                    assert(solution_of(s, root));
                }
            }
            Err(NoSolution)
        },
    }
}

/// The solver is deterministic: what it returns depends on the puzzle alone.
pub proof fn lemma_solver_is_deterministic(
    p: Seq<Set<int>>,
    first: Result<Puzzle, NoSolution>,
    second: Result<Puzzle, NoSolution>,
)
    requires
        solves(p, first),
        solves(p, second),
    ensures
        first == second,
{
    match (first, second) {
        (Ok(a), Ok(b)) => {
            a.lemma_view_injective(b);
        },
        (Err(a), Err(b)) => {
            assert(a == b);
        },
        _ => {},
    }
}

/// On a puzzle with one solution the solver returns that solution, every
/// time.
pub proof fn lemma_unique_solution_is_returned(
    p: Seq<Set<int>>,
    s: Seq<Set<int>>,
    first: Result<Puzzle, NoSolution>,
    second: Result<Puzzle, NoSolution>,
)
    requires
        within_digits(p),
        solution_of(s, p),
        forall|t: Seq<Set<int>>| solution_of(t, p) ==> t == s,
        solves(p, first),
        solves(p, second),
    ensures
        first == second,
        first is Ok,
        first->Ok_0@ == s,
{
    first->Ok_0.lemma_view_injective(second->Ok_0);
}

/// A solved grid is its own and only solution, and its candidates are
/// digits of 1 to 9.
pub proof fn lemma_solved_grid_is_its_solution(p: Seq<Set<int>>)
    requires
        is_solved(p),
    ensures
        within_digits(p),
        solution_of(p, p),
        forall|t: Seq<Set<int>>| solution_of(t, p) ==> t == p,
{
    lemma_solved_is_conflict_free(p);
    assert forall|i: int| 0 <= i < 81 implies (#[trigger] p[i]).subset_of(digits()) by {
        assert(holds_digit(p, i));
    }
    assert forall|t: Seq<Set<int>>| solution_of(t, p) implies t == p by {
        assert forall|i: int| 0 <= i < 81 implies t[i] == p[i] by {
            let d = lemma_solution_cell(t, p, i);
            assert(holds_digit(p, i));
            let e = choose|e: int| is_digit(e) && #[trigger] known(p, i, e);
            assert(p[i] == set![e]);
        }
        assert(t =~= p);
    }
}

/// A solved puzzle passes the global pass unchanged, and the search
/// completes it before any cell is branched on.
pub proof fn lemma_solved_puzzle_needs_no_search(p: Seq<Set<int>>)
    requires
        is_solved(p),
    ensures
        sweep(p, 27) == p,
        search_result(p) == Some(p),
        solution_found(p) == Some(p),
{
    assert(is_grid(p));
    assert(stable(p));
    lemma_sweep_fixed_point(p, 27);
}

/// The solver returns a solved puzzle as it is.
pub proof fn lemma_solved_puzzle_is_returned(puzzle: Puzzle, solved: Result<Puzzle, NoSolution>)
    requires
        is_solved(puzzle@),
        solves(puzzle@, solved),
    ensures
        solved == Ok::<Puzzle, NoSolution>(puzzle),
{
    lemma_solved_grid_is_its_solution(puzzle@);
    solved->Ok_0.lemma_view_injective(puzzle);
}

} // verus!
