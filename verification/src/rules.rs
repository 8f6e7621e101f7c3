//! What a solved grid is, and when one grid is a solution of another.

use vstd::prelude::*;
use vstd::set_lib::{lemma_int_range, lemma_subset_equality, set_int_range};
use crate::bitcube::determined;
use crate::topology::{
    block_of, col_of, lemma_cell_units, lemma_unit_cells, peers, row_of, unit_cell,
};

verus! {

/// The digits that a cell of a solved grid can hold.
pub open spec fn is_digit(d: int) -> bool {
    1 <= d <= 9
}

/// Cell `i` of `g` has `d` as its one candidate.
pub open spec fn known(g: Seq<Set<int>>, i: int, d: int) -> bool {
    g[i] == set![d]
}

/// Member `k` of unit `u` of `g` has `d` as its one candidate.
pub open spec fn shows(g: Seq<Set<int>>, u: int, k: int, d: int) -> bool {
    known(g, unit_cell(u, k), d)
}

/// Unit `u` of `g` holds `d` in exactly one of its nine cells.
pub open spec fn occurs_once(g: Seq<Set<int>>, u: int, d: int) -> bool {
    exists|k: int|
        0 <= k < 9 && #[trigger] shows(g, u, k, d) && forall|k2: int|
            0 <= k2 < 9 && #[trigger] shows(g, u, k2, d) ==> k2 == k
}

/// A grid of 81 finite candidate sets.
pub open spec fn is_grid(g: Seq<Set<int>>) -> bool {
    g.len() == 81 && forall|i: int| 0 <= i < 81 ==> (#[trigger] g[i]).finite()
}

/// Every cell of `g` has exactly one candidate left.
pub open spec fn is_done(g: Seq<Set<int>>) -> bool {
    g.len() == 81 && forall|i: int| 0 <= i < 81 ==> determined(#[trigger] g[i])
}

/// Every cell of `g` has exactly one candidate left, and every row, column
/// and block holds each of the digits 1 to 9 exactly once.
pub open spec fn is_solved(g: Seq<Set<int>>) -> bool {
    is_done(g) && forall|u: int, d: int|
        0 <= u < 27 && is_digit(d) ==> #[trigger] occurs_once(g, u, d)
}

/// Every candidate of `h` is a candidate of `g`, cell by cell.
pub open spec fn refines(h: Seq<Set<int>>, g: Seq<Set<int>>) -> bool {
    h.len() == 81 && g.len() == 81 && forall|i: int|
        0 <= i < 81 ==> (#[trigger] h[i]).subset_of(g[i])
}

/// `s` is a solved grid that keeps to the candidates of `g`.
pub open spec fn solution_of(s: Seq<Set<int>>, g: Seq<Set<int>>) -> bool {
    is_solved(s) && refines(s, g)
}

/// Some solved grid keeps to the candidates of `g`.
pub open spec fn solvable(g: Seq<Set<int>>) -> bool {
    exists|s: Seq<Set<int>>| solution_of(s, g)
}

/// Cell `i` of `g` holds one digit of 1 to 9.
pub open spec fn holds_digit(g: Seq<Set<int>>, i: int) -> bool {
    exists|d: int| is_digit(d) && #[trigger] known(g, i, d)
}

/// Every cell of `g` holds one digit of 1 to 9.
pub open spec fn digits_only(g: Seq<Set<int>>) -> bool {
    g.len() == 81 && forall|i: int| 0 <= i < 81 ==> #[trigger] holds_digit(g, i)
}

/// No two peers of `g` have the same candidates.
pub open spec fn conflict_free(g: Seq<Set<int>>) -> bool {
    forall|i: int, j: int| #[trigger] peers(i, j) ==> g[i] != g[j]
}

/// The values that `f` takes on the arguments below `k`.
spec fn image_below(f: spec_fn(int) -> int, k: int) -> Set<int> {
    Set::new(|y: int| exists|i: int| 0 <= i < k && #[trigger] f(i) == y)
}

/// A function that takes different values on the arguments below `k` takes
/// `k` values on them.
proof fn lemma_image_size(f: spec_fn(int) -> int, k: int)
    requires
        0 <= k,
        forall|i: int, j: int| 0 <= i < j < k ==> #[trigger] f(i) != #[trigger] f(j),
    ensures
        image_below(f, k).finite(),
        image_below(f, k).len() == k,
    decreases k,
{
    if k == 0 {
        assert(image_below(f, 0) =~= Set::<int>::empty());
    } else {
        lemma_image_size(f, k - 1);
        let prev = image_below(f, k - 1);
        assert(!prev.contains(f(k - 1))) by {
            if prev.contains(f(k - 1)) {
                let i = choose|i: int| 0 <= i < k - 1 && #[trigger] f(i) == f(k - 1);
                assert(f(i) != f(k - 1));
            }
        }
        assert forall|y: int| image_below(f, k).contains(y) == prev.insert(f(k - 1)).contains(
            y,
        ) by {
            if image_below(f, k).contains(y) {
                let i = choose|i: int| 0 <= i < k && #[trigger] f(i) == y;
                if i < k - 1 {
                    assert(prev.contains(y));
                }
            }
            if prev.contains(y) {
                let i = choose|i: int| 0 <= i < k - 1 && #[trigger] f(i) == y;
                assert(0 <= i < k && f(i) == y);
            }
            if y == f(k - 1) {
                assert(0 <= k - 1 < k && f(k - 1) == y);
            }
        }
        assert(image_below(f, k) =~= prev.insert(f(k - 1)));
    }
}

/// A function that maps the numbers below `n` to numbers below `n`, no two to
/// the same, reaches every number below `n`.
pub proof fn lemma_injective_reaches_all(f: spec_fn(int) -> int, n: int, y: int)
    requires
        forall|i: int| 0 <= i < n ==> 0 <= #[trigger] f(i) < n,
        forall|i: int, j: int| 0 <= i < j < n ==> #[trigger] f(i) != #[trigger] f(j),
        0 <= y < n,
    ensures
        exists|i: int| 0 <= i < n && #[trigger] f(i) == y,
{
    lemma_image_size(f, n);
    lemma_int_range(0, n);
    let image = image_below(f, n);
    assert(image.subset_of(set_int_range(0, n))) by {
        assert forall|v: int| image.contains(v) implies set_int_range(0, n).contains(v) by {
            let i = choose|i: int| 0 <= i < n && #[trigger] f(i) == v;
        }
    }
    lemma_subset_equality(image, set_int_range(0, n));
    assert(set_int_range(0, n).contains(y));
    assert(image.contains(y));
}

/// Two one-element sets are equal only if their elements are.
pub proof fn lemma_known_value(d1: int, d2: int)
    requires
        set![d1] == set![d2],
    ensures
        d1 == d2,
{
    assert(set![d1].contains(d1));
}

/// Two peers share a unit, and stand at different places in it.
pub proof fn lemma_peers_share_unit(i: int, j: int) -> (place: (int, int, int))
    requires
        peers(i, j),
    ensures
        0 <= place.0 < 27,
        0 <= place.1 < 9,
        0 <= place.2 < 9,
        place.1 != place.2,
        unit_cell(place.0, place.1) == i,
        unit_cell(place.0, place.2) == j,
{
    lemma_cell_units(i);
    lemma_cell_units(j);
    if row_of(i) == row_of(j) {
        (row_of(i), col_of(i), col_of(j))
    } else if col_of(i) == col_of(j) {
        (9 + col_of(i), row_of(i), row_of(j))
    } else {
        (
            18 + block_of(i),
            (row_of(i) % 3) * 3 + col_of(i) % 3,
            (row_of(j) % 3) * 3 + col_of(j) % 3,
        )
    }
}

/// Two different members of a unit are peers.
pub proof fn lemma_unit_members_are_peers(u: int, k1: int, k2: int)
    requires
        0 <= u < 27,
        0 <= k1 < 9,
        0 <= k2 < 9,
        k1 != k2,
    ensures
        peers(unit_cell(u, k1), unit_cell(u, k2)),
{
    lemma_unit_cells(u, k1);
    lemma_unit_cells(u, k2);
}

/// The place of digit `d` in unit `u` of a solved grid.
spec fn place_of(g: Seq<Set<int>>, u: int, d: int) -> int {
    choose|k: int|
        0 <= k < 9 && #[trigger] shows(g, u, k, d) && forall|k2: int|
            0 <= k2 < 9 && #[trigger] shows(g, u, k2, d) ==> k2 == k
}

/// In a solved grid every member of every unit holds a digit of 1 to 9.
proof fn lemma_solved_unit_member(g: Seq<Set<int>>, u: int, k: int) -> (d: int)
    requires
        is_solved(g),
        0 <= u < 27,
        0 <= k < 9,
    ensures
        is_digit(d),
        shows(g, u, k, d),
{
    let f = |x: int| place_of(g, u, x + 1);
    assert forall|x: int| 0 <= x < 9 implies 0 <= #[trigger] f(x) < 9 && shows(
        g,
        u,
        f(x),
        x + 1,
    ) by {
        assert(occurs_once(g, u, x + 1));
    }
    assert forall|x: int, y: int| 0 <= x < y < 9 implies #[trigger] f(x) != #[trigger] f(y) by {
        assert(shows(g, u, f(x), x + 1));
        assert(shows(g, u, f(y), y + 1));
        if f(x) == f(y) {
            lemma_known_value(x + 1, y + 1);
        }
    }
    lemma_injective_reaches_all(f, 9, k);
    let x = choose|x: int| 0 <= x < 9 && #[trigger] f(x) == k;
    assert(shows(g, u, f(x), x + 1));
    x + 1
}

/// In a solved grid every cell holds one digit of 1 to 9, and no two peers
/// hold the same.
pub proof fn lemma_solved_is_conflict_free(g: Seq<Set<int>>)
    requires
        is_solved(g),
    ensures
        digits_only(g),
        conflict_free(g),
{
    assert forall|i: int| 0 <= i < 81 implies #[trigger] holds_digit(g, i) by {
        lemma_cell_units(i);
        let d = lemma_solved_unit_member(g, row_of(i), col_of(i));
        assert(known(g, i, d));
    }
    assert forall|i: int, j: int| #[trigger] peers(i, j) implies g[i] != g[j] by {
        let (u, k1, k2) = lemma_peers_share_unit(i, j);
        let d = lemma_solved_unit_member(g, u, k1);
        if g[i] == g[j] {
            assert(shows(g, u, k1, d));
            assert(shows(g, u, k2, d));
            assert(occurs_once(g, u, d));
        }
    }
}

/// The digit of cell `i` of a grid that holds digits only.
spec fn digit_at(g: Seq<Set<int>>, i: int) -> int {
    choose|d: int| is_digit(d) && #[trigger] known(g, i, d)
}

/// A grid in which every cell holds one digit of 1 to 9 and no two peers
/// hold the same is solved.
pub proof fn lemma_conflict_free_is_solved(g: Seq<Set<int>>)
    requires
        digits_only(g),
        conflict_free(g),
    ensures
        is_solved(g),
{
    assert forall|i: int| 0 <= i < 81 implies determined(#[trigger] g[i]) by {
        assert(holds_digit(g, i));
        let d = digit_at(g, i);
        assert(known(g, i, d));
    }
    assert forall|u: int, d: int| 0 <= u < 27 && is_digit(d) implies #[trigger] occurs_once(
        g,
        u,
        d,
    ) by {
        let f = |k: int| digit_at(g, unit_cell(u, k)) - 1;
        assert forall|k: int| 0 <= k < 9 implies 0 <= #[trigger] f(k) < 9 && shows(
            g,
            u,
            k,
            f(k) + 1,
        ) by {
            lemma_unit_cells(u, k);
            assert(holds_digit(g, unit_cell(u, k)));
            assert(known(g, unit_cell(u, k), digit_at(g, unit_cell(u, k))));
        }
        assert forall|k1: int, k2: int| 0 <= k1 < k2 < 9 implies #[trigger] f(k1) != #[trigger] f(
            k2,
        ) by {
            lemma_unit_members_are_peers(u, k1, k2);
            assert(shows(g, u, k1, f(k1) + 1));
            assert(shows(g, u, k2, f(k2) + 1));
        }
        lemma_injective_reaches_all(f, 9, d - 1);
        let k = choose|k: int| 0 <= k < 9 && #[trigger] f(k) == d - 1;
        assert(shows(g, u, k, d));
        assert forall|k2: int| 0 <= k2 < 9 && #[trigger] shows(g, u, k2, d) implies k2 == k by {
            if k2 != k {
                lemma_unit_members_are_peers(u, k, k2);
            }
        }
    }
}

} // verus!
