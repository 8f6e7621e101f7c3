//! The global pass: elimination of the known values, unit by unit.

use vstd::prelude::*;
use crate::bitcube::{determined, lemma_value_of, value_of, BitCube};
use crate::puzzle::Puzzle;
use crate::rules::{
    holds_digit, is_digit, is_grid, known, lemma_solved_is_conflict_free,
    lemma_unit_members_are_peers, refines, solution_of,
};
use crate::topology::{lemma_unit_cells, unit_cell};

verus! {

/// The values of the determined cells among the first `n` members of unit
/// `u`, in the order of the members.
pub open spec fn known_values(g: Seq<Set<int>>, u: int, n: int) -> Seq<int>
    decreases n,
{
    if n <= 0 {
        Seq::empty()
    } else {
        let before = known_values(g, u, n - 1);
        let c = g[unit_cell(u, n - 1)];
        if determined(c) {
            before.push(value_of(c))
        } else {
            before
        }
    }
}

/// Takes `values` out of `c` one after the other, and stops as soon as one
/// candidate is left.
pub open spec fn strike(c: Set<int>, values: Seq<int>) -> Set<int>
    decreases values.len(),
{
    if values.len() == 0 {
        c
    } else {
        let s = strike(c, values.drop_last());
        if determined(s) {
            s
        } else {
            s.remove(values.last())
        }
    }
}

/// Whether cell `i` is a member of unit `u`.
pub open spec fn in_unit(u: int, i: int) -> bool {
    exists|k: int| 0 <= k < 9 && #[trigger] unit_cell(u, k) == i
}

/// The pass over unit `u`: the values that are known in the unit are struck
/// from each of its cells.
pub open spec fn sweep_unit(g: Seq<Set<int>>, u: int) -> Seq<Set<int>> {
    Seq::new(
        81,
        |i: int|
            if in_unit(u, i) {
                strike(g[i], known_values(g, u, 9))
            } else {
                g[i]
            },
    )
}

/// The pass over the first `n` units, one after the other.
pub open spec fn sweep(g: Seq<Set<int>>, n: int) -> Seq<Set<int>>
    decreases n,
{
    if n <= 0 {
        g
    } else {
        sweep_unit(sweep(g, n - 1), n - 1)
    }
}

/// The global pass: in each of the 27 units, rows first, then columns, then
/// blocks, the values that are known in the unit are removed from the cells
/// of the unit that are not determined yet.
pub fn update_constraints(puzzle: &mut Puzzle)
    ensures
        final(puzzle)@ == sweep(old(puzzle)@, 27),
{
    let mut set: Vec<usize> = Vec::with_capacity(10);
    let mut unit: usize = 0;
    while unit < 27
        invariant
            unit <= 27,
            set@.len() == 0,
            puzzle@ == sweep(old(puzzle)@, unit as int),
        decreases 27 - unit,
    {
        let ghost start = puzzle@;
        proof {
            puzzle.lemma_view_is_grid();
        }
        // collect the known values of this unit
        let mut elem: usize = 0;
        while elem < 9
            invariant
                elem <= 9,
                unit < 27,
                puzzle@ == start,
                is_grid(start),
                set@.len() <= elem,
                set@.map_values(|v: usize| v as int) == known_values(start, unit as int, elem as int),
                forall|t: int| 0 <= t < set@.len() ==> set@[t] < 16,
            decreases 9 - elem,
        {
            let val = puzzle.storage[BitCube::unit(unit, elem)];
            if val.num_choices() == 1 {
                let v = val.get_value();
                proof {
                    assert(val@ == start[unit_cell(unit as int, elem as int)]);
                    assert(val@.contains(v as int));
                    lemma_value_of(val@, v as int);
                    assert(set@.push(v).map_values(|v: usize| v as int) =~= set@.map_values(
                        |v: usize| v as int,
                    ).push(v as int));
                }
                set.push(v);
            } else {
                proof {
                    val.lemma_view();
                }
            }
            elem += 1;
        }
        let ghost values = known_values(start, unit as int, 9);
        // strike them from the cells of the unit
        let mut elem: usize = 0;
        while elem < 9
            invariant
                elem <= 9,
                unit < 27,
                is_grid(start),
                values == known_values(start, unit as int, 9),
                set@.map_values(|v: usize| v as int) == values,
                forall|t: int| 0 <= t < set@.len() ==> set@[t] < 16,
                puzzle@.len() == 81,
                forall|k: int|
                    0 <= k < elem ==> puzzle@[#[trigger] unit_cell(unit as int, k)] == strike(
                        start[unit_cell(unit as int, k)],
                        values,
                    ),
                forall|i: int|
                    0 <= i < 81 && !(exists|k: int|
                        0 <= k < elem && #[trigger] unit_cell(unit as int, k) == i)
                        ==> #[trigger] puzzle@[i] == start[i],
            decreases 9 - elem,
        {
            let index = BitCube::unit(unit, elem);
            let mut t: usize = 0;
            proof {
                lemma_unit_cells(unit as int, elem as int);
                assert forall|k: int| 0 <= k < elem implies #[trigger] unit_cell(unit as int, k)
                    != index by {
                    lemma_unit_cells(unit as int, k);
                }
                assert(puzzle@[index as int] == start[index as int]);
                assert(values.take(0) =~= Seq::<int>::empty());
            }
            let ghost before = puzzle@;
            while t < set.len()
                invariant
                    t <= set@.len(),
                    index < 81,
                    before.len() == 81,
                    start.len() == 81,
                    set@.map_values(|v: usize| v as int) == values,
                    forall|t: int| 0 <= t < set@.len() ==> set@[t] < 16,
                    puzzle@.len() == 81,
                    puzzle@[index as int] == strike(start[index as int], values.take(t as int)),
                    forall|i: int| 0 <= i < 81 && i != index ==> #[trigger] puzzle@[i] == before[i],
                decreases set@.len() - t,
            {
                let item = set[t];
                let ghost cur = puzzle@;
                proof {
                    puzzle.storage[index as int].lemma_view();
                    assert(values.take(t + 1).drop_last() =~= values.take(t as int));
                    assert(values.take(t + 1).last() == item as int);
                }
                if puzzle.storage[index].num_choices() != 1 {
                    puzzle.storage[index].clear(item);
                }
                proof {
                    assert forall|i: int| 0 <= i < 81 && i != index implies #[trigger] puzzle@[i]
                        == before[i] by {
                        assert(puzzle@[i] == cur[i]);
                    }
                }
                t += 1;
            }
            proof {
                assert(values.take(set@.len() as int) =~= values);
                assert forall|i: int|
                    0 <= i < 81 && !(exists|k: int|
                        0 <= k < elem + 1 && #[trigger] unit_cell(unit as int, k) == i)
                        implies #[trigger] puzzle@[i] == start[i] by {
                    assert(i != index);
                    assert(!(exists|k: int|
                        0 <= k < elem && #[trigger] unit_cell(unit as int, k) == i));
                    assert(before[i] == start[i]);
                }
                assert forall|k: int| 0 <= k < elem + 1 implies puzzle@[#[trigger] unit_cell(
                    unit as int,
                    k,
                )] == strike(start[unit_cell(unit as int, k)], values) by {
                    if k < elem {
                        assert(unit_cell(unit as int, k) != index);
                        assert(puzzle@[unit_cell(unit as int, k)] == before[unit_cell(
                            unit as int,
                            k,
                        )]);
                    }
                }
            }
            elem += 1;
        }
        set.clear();
        proof {
            assert forall|i: int| 0 <= i < 81 implies puzzle@[i] == sweep_unit(start, unit as int)[i] by {
                if in_unit(unit as int, i) {
                    let k = choose|k: int| 0 <= k < 9 && #[trigger] unit_cell(unit as int, k) == i;
                    assert(puzzle@[unit_cell(unit as int, k)] == strike(
                        start[unit_cell(unit as int, k)],
                        values,
                    ));
                } else {
                    assert(!(exists|k: int|
                        0 <= k < 9 && #[trigger] unit_cell(unit as int, k) == i));
                }
            }
            assert(puzzle@ =~= sweep_unit(start, unit as int));
        }
        unit += 1;
    }
}

/// Striking takes candidates away and adds none.
pub proof fn lemma_strike_subset(c: Set<int>, values: Seq<int>)
    ensures
        strike(c, values).subset_of(c),
        c.finite() ==> strike(c, values).finite(),
    decreases values.len(),
{
    if values.len() > 0 {
        lemma_strike_subset(c, values.drop_last());
    }
}

/// Striking leaves a determined cell as it is.
pub proof fn lemma_strike_determined(c: Set<int>, values: Seq<int>)
    requires
        determined(c),
    ensures
        strike(c, values) == c,
    decreases values.len(),
{
    if values.len() > 0 {
        lemma_strike_determined(c, values.drop_last());
    }
}

/// Striking keeps every candidate that is not among the values.
pub proof fn lemma_strike_keeps(c: Set<int>, values: Seq<int>, d: int)
    requires
        c.contains(d),
        !values.contains(d),
    ensures
        strike(c, values).contains(d),
    decreases values.len(),
{
    if values.len() > 0 {
        let front = values.drop_last();
        assert forall|t: int| 0 <= t < front.len() implies front[t] != d by {
            assert(values[t] == front[t]);
        }
        lemma_strike_keeps(c, front, d);
        assert(values[values.len() - 1] != d);
    }
}

/// A cell that striking leaves undetermined has lost every one of the values.
pub proof fn lemma_strike_complete(c: Set<int>, values: Seq<int>, v: int)
    requires
        !determined(strike(c, values)),
        values.contains(v),
    ensures
        !strike(c, values).contains(v),
    decreases values.len(),
{
    let front = values.drop_last();
    let t = choose|t: int| 0 <= t < values.len() && values[t] == v;
    if t < values.len() - 1 {
        assert(front[t] == v);
        lemma_strike_complete(c, front, v);
    }
}

/// Striking values that are no candidates changes nothing.
pub proof fn lemma_strike_nothing(c: Set<int>, values: Seq<int>)
    requires
        forall|t: int| 0 <= t < values.len() ==> !c.contains(#[trigger] values[t]),
    ensures
        strike(c, values) == c,
    decreases values.len(),
{
    if values.len() > 0 {
        let front = values.drop_last();
        assert forall|t: int| 0 <= t < front.len() implies !c.contains(#[trigger] front[t]) by {
            assert(values[t] == front[t]);
        }
        lemma_strike_nothing(c, front);
        assert(!c.contains(values[values.len() - 1]));
        assert(c.remove(values.last()) =~= c);
    }
}

/// The known values of a unit are the values of its determined members.
pub proof fn lemma_known_values(g: Seq<Set<int>>, u: int, n: int)
    ensures
        forall|v: int|
            known_values(g, u, n).contains(v) <==> exists|k: int|
                0 <= k < n && determined(g[#[trigger] unit_cell(u, k)]) && value_of(
                    g[unit_cell(u, k)],
                ) == v,
    decreases n,
{
    if n > 0 {
        lemma_known_values(g, u, n - 1);
        let before = known_values(g, u, n - 1);
        let c = g[unit_cell(u, n - 1)];
        assert forall|v: int|
            known_values(g, u, n).contains(v) <==> exists|k: int|
                0 <= k < n && determined(g[#[trigger] unit_cell(u, k)]) && value_of(
                    g[unit_cell(u, k)],
                ) == v by {
            if known_values(g, u, n).contains(v) {
                let t = choose|t: int|
                    0 <= t < known_values(g, u, n).len() && known_values(g, u, n)[t] == v;
                if determined(c) && t == before.len() {
                    assert(determined(g[unit_cell(u, n - 1)]) && value_of(g[unit_cell(u, n - 1)])
                        == v);
                } else {
                    assert(before[t] == v);
                    assert(before.contains(v));
                    let k = choose|k: int|
                        0 <= k < n - 1 && determined(g[#[trigger] unit_cell(u, k)]) && value_of(
                            g[unit_cell(u, k)],
                        ) == v;
                    assert(0 <= k < n);
                }
            }
            if exists|k: int|
                0 <= k < n && determined(g[#[trigger] unit_cell(u, k)]) && value_of(
                    g[unit_cell(u, k)],
                ) == v {
                let k = choose|k: int|
                    0 <= k < n && determined(g[#[trigger] unit_cell(u, k)]) && value_of(
                        g[unit_cell(u, k)],
                    ) == v;
                if k == n - 1 {
                    assert(known_values(g, u, n)[before.len() as int] == v);
                } else {
                    assert(before.contains(v));
                    let t = choose|t: int| 0 <= t < before.len() && before[t] == v;
                    assert(known_values(g, u, n)[t] == v);
                }
            }
        }
    } else {
        assert forall|v: int| !known_values(g, u, n).contains(v) by {}
    }
}

/// The pass over one unit only takes candidates away, and leaves the
/// determined cells as they are.
pub proof fn lemma_sweep_unit_refines(g: Seq<Set<int>>, u: int)
    requires
        is_grid(g),
    ensures
        is_grid(sweep_unit(g, u)),
        refines(sweep_unit(g, u), g),
        forall|i: int| 0 <= i < 81 && determined(#[trigger] g[i]) ==> sweep_unit(g, u)[i] == g[i],
{
    let h = sweep_unit(g, u);
    let values = known_values(g, u, 9);
    assert forall|i: int| 0 <= i < 81 implies (#[trigger] h[i]).subset_of(g[i]) && h[i].finite()
        && (determined(g[i]) ==> h[i] == g[i]) by {
        lemma_strike_subset(g[i], values);
        if determined(g[i]) {
            lemma_strike_determined(g[i], values);
        }
    }
}

/// The global pass only takes candidates away, and leaves the determined
/// cells as they are.
pub proof fn lemma_sweep_refines(g: Seq<Set<int>>, n: int)
    requires
        is_grid(g),
    ensures
        is_grid(sweep(g, n)),
        refines(sweep(g, n), g),
        forall|i: int| 0 <= i < 81 && determined(#[trigger] g[i]) ==> sweep(g, n)[i] == g[i],
    decreases n,
{
    if n > 0 {
        lemma_sweep_refines(g, n - 1);
        lemma_sweep_unit_refines(sweep(g, n - 1), n - 1);
    }
}

/// The pass over one unit loses no solution.
pub proof fn lemma_sweep_unit_keeps_solutions(g: Seq<Set<int>>, u: int, s: Seq<Set<int>>)
    requires
        0 <= u < 27,
        solution_of(s, g),
    ensures
        solution_of(s, sweep_unit(g, u)),
{
    let h = sweep_unit(g, u);
    let values = known_values(g, u, 9);
    lemma_solved_is_conflict_free(s);
    lemma_known_values(g, u, 9);
    assert forall|i: int| 0 <= i < 81 implies (#[trigger] s[i]).subset_of(h[i]) by {
        if in_unit(u, i) {
            let k = choose|k: int| 0 <= k < 9 && #[trigger] unit_cell(u, k) == i;
            assert(holds_digit(s, i));
            let d = choose|d: int| is_digit(d) && #[trigger] known(
                s,
                i,
                d,
            );
            assert(s[i] == set![d]);
            assert(s[i].subset_of(g[i]));
            assert(g[i].contains(d));
            if determined(g[i]) {
                lemma_strike_determined(g[i], values);
            } else {
                if values.contains(d) {
                    let k2 = choose|k2: int|
                        0 <= k2 < 9 && determined(g[#[trigger] unit_cell(u, k2)]) && value_of(
                            g[unit_cell(u, k2)],
                        ) == d;
                    let j = unit_cell(u, k2);
                    lemma_unit_cells(u, k2);
                    assert(k2 != k);
                    lemma_unit_members_are_peers(u, k, k2);
                    assert(holds_digit(s, j));
                    let dj = choose|dj: int|
                        is_digit(dj) && #[trigger] known(s, j, dj);
                    assert(s[j] == set![dj]);
                    assert(s[j].subset_of(g[j]));
                    assert(g[j].contains(dj));
                    lemma_value_of(g[j], dj);
                    assert(s[i] == s[j]);
                }
                lemma_strike_keeps(g[i], values, d);
            }
        }
    }
}

/// The global pass loses no solution.
pub proof fn lemma_sweep_keeps_solutions(g: Seq<Set<int>>, n: int, s: Seq<Set<int>>)
    requires
        0 <= n <= 27,
        solution_of(s, g),
    ensures
        solution_of(s, sweep(g, n)),
    decreases n,
{
    if n > 0 {
        lemma_sweep_keeps_solutions(g, n - 1, s);
        lemma_sweep_unit_keeps_solutions(sweep(g, n - 1), n - 1, s);
    }
}

/// In every unit, the value of each determined cell is gone from the cells
/// that are not determined.
pub open spec fn stable(g: Seq<Set<int>>) -> bool {
    forall|u: int, k1: int, k2: int|
        0 <= u < 27 && 0 <= k1 < 9 && 0 <= k2 < 9 && determined(g[#[trigger] unit_cell(u, k1)])
            && !determined(g[#[trigger] unit_cell(u, k2)]) ==> !g[unit_cell(u, k2)].contains(
            value_of(g[unit_cell(u, k1)]),
        )
}

/// The global pass changes nothing in a stable grid.
pub proof fn lemma_sweep_fixed_point(g: Seq<Set<int>>, n: int)
    requires
        is_grid(g),
        stable(g),
        0 <= n <= 27,
    ensures
        sweep(g, n) == g,
    decreases n,
{
    if n > 0 {
        lemma_sweep_fixed_point(g, n - 1);
        let u = n - 1;
        let values = known_values(g, u, 9);
        lemma_known_values(g, u, 9);
        assert forall|i: int| 0 <= i < 81 implies sweep_unit(g, u)[i] == g[i] by {
            if in_unit(u, i) {
                let k = choose|k: int| 0 <= k < 9 && #[trigger] unit_cell(u, k) == i;
                if determined(g[i]) {
                    lemma_strike_determined(g[i], values);
                } else {
                    assert forall|t: int| 0 <= t < values.len() implies !g[i].contains(
                        #[trigger] values[t],
                    ) by {
                        assert(values.contains(values[t]));
                        let k1 = choose|k1: int|
                            0 <= k1 < 9 && determined(g[#[trigger] unit_cell(u, k1)]) && value_of(
                                g[unit_cell(u, k1)],
                            ) == values[t];
                        assert(!g[unit_cell(u, k)].contains(value_of(g[unit_cell(u, k1)])));
                    }
                    lemma_strike_nothing(g[i], values);
                }
            }
        }
        assert(sweep_unit(g, u) =~= g);
    }
}

/// Later stages of the global pass refine earlier ones, and keep the cells
/// that an earlier stage has determined.
pub proof fn lemma_sweep_stages(g: Seq<Set<int>>, n: int, m: int)
    requires
        is_grid(g),
        0 <= n <= m,
    ensures
        is_grid(sweep(g, n)),
        refines(sweep(g, m), sweep(g, n)),
        forall|i: int|
            0 <= i < 81 && determined(#[trigger] sweep(g, n)[i]) ==> sweep(g, m)[i] == sweep(
                g,
                n,
            )[i],
    decreases m - n,
{
    lemma_sweep_refines(g, n);
    if n < m {
        lemma_sweep_stages(g, n, m - 1);
        lemma_sweep_refines(g, m - 1);
        lemma_sweep_unit_refines(sweep(g, m - 1), m - 1);
        assert forall|i: int| 0 <= i < 81 implies (#[trigger] sweep(g, m)[i]).subset_of(
            sweep(g, n)[i],
        ) by {
            assert(sweep(g, m)[i].subset_of(sweep(g, m - 1)[i]));
            assert(sweep(g, m - 1)[i].subset_of(sweep(g, n)[i]));
        }
    }
}

/// A global pass that determines no new cell leaves a stable grid.
pub proof fn lemma_sweep_settles(g: Seq<Set<int>>)
    requires
        is_grid(g),
        forall|i: int| 0 <= i < 81 && determined(#[trigger] sweep(g, 27)[i]) ==> determined(g[i]),
    ensures
        stable(sweep(g, 27)),
{
    let last = sweep(g, 27);
    assert forall|u: int, k1: int, k2: int|
        0 <= u < 27 && 0 <= k1 < 9 && 0 <= k2 < 9 && determined(last[#[trigger] unit_cell(u, k1)])
            && !determined(last[#[trigger] unit_cell(u, k2)]) implies !last[unit_cell(
        u,
        k2,
    )].contains(value_of(last[unit_cell(u, k1)])) by {
        let i1 = unit_cell(u, k1);
        let i2 = unit_cell(u, k2);
        lemma_unit_cells(u, k1);
        lemma_unit_cells(u, k2);
        let at = sweep(g, u);
        let next = sweep(g, u + 1);
        let v = value_of(last[i1]);
        // the first cell has been determined all along
        assert(determined(g[i1]));
        lemma_sweep_stages(g, 0, u);
        lemma_sweep_stages(g, 0, 27);
        assert(sweep(g, 0) == g);
        assert(at[i1] == g[i1] && last[i1] == g[i1]);
        lemma_known_values(at, u, 9);
        assert(known_values(at, u, 9).contains(v));
        // the second cell was not determined when the unit was swept
        lemma_sweep_stages(g, u + 1, 27);
        assert(!determined(next[i2]));
        assert(in_unit(u, i2));
        assert(next[i2] == strike(at[i2], known_values(at, u, 9)));
        lemma_strike_complete(at[i2], known_values(at, u, 9), v);
        assert(last[i2].subset_of(next[i2]));
    }
}

/// Idempotence of the global pass: where a pass determines no new cell, a
/// second pass right after it removes nothing.
pub proof fn lemma_sweep_idempotent(g: Seq<Set<int>>)
    requires
        is_grid(g),
        forall|i: int| 0 <= i < 81 && determined(#[trigger] sweep(g, 27)[i]) ==> determined(g[i]),
    ensures
        sweep(sweep(g, 27), 27) == sweep(g, 27),
{
    lemma_sweep_refines(g, 27);
    lemma_sweep_settles(g);
    lemma_sweep_fixed_point(sweep(g, 27), 27);
}

} // verus!
