//! The pointwise pass: one assignment is followed through the peers of its
//! cell, and through the peers of every cell that this determines.

use vstd::prelude::*;
use vstd::set_lib::lemma_len_subset;
use crate::bitcube::{determined, lemma_only_member, lemma_value_of, value_of};
use crate::puzzle::Puzzle;
use crate::rules::{
    holds_digit, is_digit, is_grid, known, lemma_solved_is_conflict_free, refines, solution_of,
};
use crate::topology::{
    is_neighbor, lemma_neighbor_is_peer, lemma_peer_is_neighbor, neighbor, neighbor_rank,
    peer_table, peers, Neighbors,
};

verus! {

/// The number of candidates in the first `n` cells of `g`.
pub open spec fn candidates_below(g: Seq<Set<int>>, n: int) -> nat
    decreases n,
{
    if n <= 0 {
        0
    } else {
        candidates_below(g, n - 1) + g[n - 1].len()
    }
}

/// The number of candidates in the whole grid.
pub open spec fn candidates_left(g: Seq<Set<int>>) -> nat {
    candidates_below(g, 81)
}

/// A grid that refines another has no more candidates in its first `n`
/// cells, and fewer if one of them has fewer.
proof fn lemma_candidates_below(h: Seq<Set<int>>, g: Seq<Set<int>>, n: int)
    requires
        0 <= n <= 81,
        is_grid(g),
        refines(h, g),
    ensures
        candidates_below(h, n) <= candidates_below(g, n),
        forall|i: int|
            0 <= i < n && (#[trigger] h[i]).len() < g[i].len() ==> candidates_below(h, n)
                < candidates_below(g, n),
    decreases n,
{
    if n > 0 {
        lemma_candidates_below(h, g, n - 1);
        assert(h[n - 1].subset_of(g[n - 1]));
        lemma_len_subset(h[n - 1], g[n - 1]);
    }
}

/// A grid that refines another has no more candidates, and fewer if one of its
/// cells has fewer.
pub proof fn lemma_fewer_candidates(h: Seq<Set<int>>, g: Seq<Set<int>>)
    requires
        is_grid(g),
        refines(h, g),
    ensures
        is_grid(h),
        candidates_left(h) <= candidates_left(g),
        forall|i: int|
            0 <= i < 81 && (#[trigger] h[i]).len() < g[i].len() ==> candidates_left(h)
                < candidates_left(g),
        forall|i: int| 0 <= i < 81 ==> (#[trigger] h[i]).len() <= g[i].len(),
{
    lemma_candidates_below(h, g, 81);
    assert forall|i: int| 0 <= i < 81 implies (#[trigger] h[i]).finite() && h[i].len()
        <= g[i].len() by {
        assert(h[i].subset_of(g[i]));
        lemma_len_subset(h[i], g[i]);
    }
}

/// `h` refines `g`, and every cell of `g` that has a candidate has one in `h`.
pub open spec fn narrows(h: Seq<Set<int>>, g: Seq<Set<int>>) -> bool {
    &&& refines(h, g)
    &&& forall|i: int| 0 <= i < 81 && (#[trigger] g[i]).len() > 0 ==> h[i].len() > 0
}

/// Cell `i` is determined, each of its peers has a candidate left, and none
/// of them has the value of `i` among its candidates.
pub open spec fn settled(g: Seq<Set<int>>, i: int) -> bool {
    &&& determined(g[i])
    &&& forall|j: int| #[trigger] peers(i, j) ==> g[j].len() > 0 && !g[j].contains(value_of(g[i]))
}

/// Cell `i` is determined in `new` and was not in `old`.
pub open spec fn fresh(old: Seq<Set<int>>, new: Seq<Set<int>>, i: int) -> bool {
    0 <= i < 81 && determined(new[i]) && !determined(old[i])
}

/// Cell `t` was not determined in `old`, had `x` among its candidates, and
/// has no candidate but `x` in `new`.
pub open spec fn came_down_to(old: Seq<Set<int>>, new: Seq<Set<int>>, t: int, x: int) -> bool {
    0 <= t < 81 && !determined(old[t]) && old[t].contains(x) && new[t].subset_of(set![x])
}

/// Why `x` may have left cell `i`: `i` is a peer of the cell `index` that was
/// assigned `x`, or a peer of a cell that came down to `x`.
pub open spec fn reason(
    old: Seq<Set<int>>,
    new: Seq<Set<int>>,
    index: int,
    v: int,
    i: int,
    x: int,
) -> bool {
    (peers(index, i) && x == v) || exists|t: int| #[trigger]
        peers(t, i) && came_down_to(old, new, t, x)
}

/// Every candidate that `old` has and `new` lacks left for a reason.
pub open spec fn justified(old: Seq<Set<int>>, new: Seq<Set<int>>, index: int, v: int) -> bool {
    forall|i: int, x: int|
        0 <= i < 81 && old[i].contains(x) && !new[i].contains(x) ==> #[trigger] reason(
            old,
            new,
            index,
            v,
            i,
            x,
        )
}

/// What holds of the pass whether it succeeds or not: candidates only leave,
/// each for a reason, and none leaves that is left in any grid in which the
/// assignment has been followed through.
pub open spec fn eliminated(old: Seq<Set<int>>, new: Seq<Set<int>>, index: int, v: int) -> bool {
    &&& is_grid(new)
    &&& refines(new, old)
    &&& justified(old, new, index, v)
    &&& forall|h: Seq<Set<int>>| #[trigger] propagated(old, h, index, v) ==> refines(h, new)
}

/// The assignment of `v` to cell `index` has been followed through from
/// `old` to `new`: no cell has lost its last candidate, `v` is gone from the
/// peers of `index`, and every cell that is determined in `new` and was not in
/// `old` is settled.
pub open spec fn propagated(old: Seq<Set<int>>, new: Seq<Set<int>>, index: int, v: int) -> bool {
    &&& narrows(new, old)
    &&& forall|j: int| #[trigger] peers(index, j) ==> new[j].len() > 0 && !new[j].contains(v)
    &&& forall|i: int| #[trigger] fresh(old, new, i) ==> settled(new, i)
}

/// There is a grid in which the assignment of `v` to cell `index` has been
/// followed through from `old`.
pub open spec fn can_propagate(old: Seq<Set<int>>, index: int, v: int) -> bool {
    exists|h: Seq<Set<int>>| propagated(old, h, index, v)
}

/// What holds of a pass that fails: a peer of `index`, or of a cell that the
/// pass has determined, has no candidate left, and it is the only cell that
/// has lost its last candidate.
pub open spec fn dead_end(old: Seq<Set<int>>, new: Seq<Set<int>>, index: int) -> bool {
    exists|i: int, t: int|
        {
            &&& #[trigger] peers(t, i)
            &&& new[i].len() == 0
            &&& (t == index || fresh(old, new, t))
            &&& forall|j: int|
                0 <= j < 81 && j != i && (#[trigger] old[j]).len() > 0 ==> new[j].len() > 0
        }
}

/// A set within a one-element set that is not empty is that one-element set.
proof fn lemma_within_single(c: Set<int>, x: int)
    requires
        c.subset_of(set![x]),
        c.finite(),
        c.len() > 0,
    ensures
        c == set![x],
        determined(c),
        value_of(c) == x,
{
    let y = c.choose();
    assert(c.contains(y));
    assert(set![x].contains(y));
    assert(c =~= set![x]);
    lemma_value_of(c, x);
}

/// A finite set with a subset that is neither empty nor determined is not
/// determined.
proof fn lemma_above_undetermined(c: Set<int>, big: Set<int>, x: int)
    requires
        c.subset_of(big),
        big.finite(),
        c.contains(x),
        !determined(c),
    ensures
        !determined(big),
        big.contains(x),
{
    lemma_len_subset(c, big);
    if determined(big) {
        lemma_only_member(big, x);
        lemma_within_single(c, x);
    }
}

/// A determined cell stays as it is in a grid that narrows its grid.
pub proof fn lemma_determined_persists(g: Seq<Set<int>>, h: Seq<Set<int>>, i: int)
    requires
        is_grid(g),
        narrows(h, g),
        0 <= i < 81,
        determined(g[i]),
    ensures
        h[i] == g[i],
{
    let x = g[i].choose();
    assert(g[i].contains(x));
    lemma_only_member(g[i], x);
    assert(h[i].subset_of(g[i]));
    lemma_len_subset(h[i], g[i]);
    assert(g[i].len() > 0);
    lemma_within_single(h[i], x);
}

/// A settled cell stays settled in a grid that narrows its grid.
pub proof fn lemma_settled_persists(g: Seq<Set<int>>, h: Seq<Set<int>>, i: int)
    requires
        is_grid(g),
        narrows(h, g),
        0 <= i < 81,
        settled(g, i),
    ensures
        settled(h, i),
        h[i] == g[i],
{
    lemma_determined_persists(g, h, i);
    assert forall|j: int| #[trigger] peers(i, j) implies h[j].len() > 0 && !h[j].contains(
        value_of(h[i]),
    ) by {
        assert(h[j].subset_of(g[j]));
        assert(g[j].len() > 0);
    }
}

/// A grid in which an assignment has been followed through, and that refines
/// a grid `nxt` on the way, is also one in which the assignment of `w` to a
/// cell that `nxt` has determined has been followed through from `nxt`.
proof fn lemma_propagated_descends(
    old: Seq<Set<int>>,
    nxt: Seq<Set<int>>,
    h: Seq<Set<int>>,
    index: int,
    v: int,
    elem: int,
    w: int,
)
    requires
        is_grid(old),
        narrows(nxt, old),
        refines(h, nxt),
        propagated(old, h, index, v),
        0 <= elem < 81,
        nxt[elem] == set![w],
        !determined(old[elem]),
    ensures
        propagated(nxt, h, elem, w),
{
    lemma_fewer_candidates(nxt, old);
    lemma_fewer_candidates(h, nxt);
    assert forall|i: int| 0 <= i < 81 && (#[trigger] nxt[i]).len() > 0 implies h[i].len() > 0 by {
        assert(nxt[i].subset_of(old[i]));
        lemma_len_subset(nxt[i], old[i]);
        assert(old[i].len() > 0);
    }
    assert(h[elem].subset_of(nxt[elem]));
    assert(nxt[elem].len() > 0);
    lemma_within_single(h[elem], w);
    assert(fresh(old, h, elem));
    assert(settled(h, elem));
    assert forall|i: int| #[trigger] fresh(nxt, h, i) implies settled(h, i) by {
        if determined(old[i]) {
            lemma_determined_persists(old, nxt, i);
        }
        assert(fresh(old, h, i));
    }
}

/// In a solution of `old` in which cell `index` holds `v`, the assignment has
/// been followed through.
pub proof fn lemma_solution_is_propagated(
    old: Seq<Set<int>>,
    s: Seq<Set<int>>,
    index: int,
    v: int,
)
    requires
        solution_of(s, old),
        known(s, index, v),
    ensures
        propagated(old, s, index, v),
{
    lemma_solved_is_conflict_free(s);
    assert forall|i: int| 0 <= i < 81 implies (#[trigger] s[i]).len() > 0 && determined(s[i]) by {
        assert(holds_digit(s, i));
    }
    assert forall|j: int| #[trigger] peers(index, j) implies s[j].len() > 0 && !s[j].contains(
        v,
    ) by {
        assert(s[index] != s[j]);
        assert(holds_digit(s, j));
        let d = choose|d: int| is_digit(d) && #[trigger] known(s, j, d);
        assert(s[j] == set![d]);
    }
    assert forall|i: int| #[trigger] fresh(old, s, i) implies settled(s, i) by {
        assert(holds_digit(s, i));
        let d = choose|d: int| is_digit(d) && #[trigger] known(s, i, d);
        lemma_value_of(s[i], d);
        assert forall|j: int| #[trigger] peers(i, j) implies s[j].len() > 0 && !s[j].contains(
            value_of(s[i]),
        ) by {
            assert(s[i] != s[j]);
            assert(holds_digit(s, j));
            let dj = choose|dj: int| is_digit(dj) && #[trigger] known(s, j, dj);
            assert(s[j] == set![dj]);
        }
    }
}

/// The pass loses no solution in which cell `index` holds `v`.
pub proof fn lemma_pass_keeps_solutions(
    old: Seq<Set<int>>,
    new: Seq<Set<int>>,
    index: int,
    v: int,
    s: Seq<Set<int>>,
)
    requires
        eliminated(old, new, index, v),
        solution_of(s, old),
        known(s, index, v),
    ensures
        solution_of(s, new),
        can_propagate(old, index, v),
{
    lemma_solution_is_propagated(old, s, index, v);
}

/// The state of the pass when the first `k` peers of `index` are done and
/// nothing has failed. The cell `pending`, if it is one, has just been
/// determined and is not followed up yet.
#[verifier::opaque]
spec fn passed(
    old: Seq<Set<int>>,
    cur: Seq<Set<int>>,
    index: int,
    v: int,
    k: int,
    pending: int,
) -> bool {
    &&& is_grid(old)
    &&& 0 <= index < 81
    &&& eliminated(old, cur, index, v)
    &&& narrows(cur, old)
    &&& forall|t: int|
        0 <= t < k ==> cur[#[trigger] neighbor(index, t)].len() > 0 && !cur[neighbor(
            index,
            t,
        )].contains(v)
    &&& forall|i: int| #[trigger] fresh(old, cur, i) && i != pending ==> settled(cur, i)
}

/// Before the first peer nothing has changed.
proof fn lemma_pass_starts(g: Seq<Set<int>>, index: int, v: int)
    requires
        is_grid(g),
        0 <= index < 81,
    ensures
        passed(g, g, index, v, 0, -1),
{
    reveal(passed);
}

/// After the last peer the assignment has been followed through.
proof fn lemma_pass_ends(old: Seq<Set<int>>, cur: Seq<Set<int>>, index: int, v: int)
    requires
        passed(old, cur, index, v, 20, -1),
    ensures
        eliminated(old, cur, index, v),
        propagated(old, cur, index, v),
        can_propagate(old, index, v),
{
    reveal(passed);
    assert forall|j: int| #[trigger] peers(index, j) implies cur[j].len() > 0 && !cur[j].contains(
        v,
    ) by {
        lemma_peer_is_neighbor(index, j);
        let k = neighbor_rank(index, j);
        assert(neighbor(index, k) == j);
    }
    assert(propagated(old, cur, index, v));
}

/// One peer of `index` loses `v`.
proof fn lemma_pass_clears(
    old: Seq<Set<int>>,
    cur: Seq<Set<int>>,
    nxt: Seq<Set<int>>,
    index: int,
    v: int,
    k: int,
)
    requires
        passed(old, cur, index, v, k, -1),
        0 <= k < 20,
        nxt == cur.update(neighbor(index, k), cur[neighbor(index, k)].remove(v)),
    ensures
        eliminated(old, nxt, index, v),
        nxt[neighbor(index, k)].len() == 0 ==> dead_end(old, nxt, index) && !can_propagate(
            old,
            index,
            v,
        ),
        nxt[neighbor(index, k)].len() > 0 ==> passed(
            old,
            nxt,
            index,
            v,
            k + 1,
            if determined(nxt[neighbor(index, k)]) && !determined(cur[neighbor(index, k)]) {
                neighbor(index, k)
            } else {
                -1
            },
        ),
        determined(nxt[neighbor(index, k)]) && !determined(cur[neighbor(index, k)])
            ==> !determined(old[neighbor(index, k)]) && old[neighbor(index, k)].contains(
            value_of(nxt[neighbor(index, k)]),
        ),
{
    reveal(passed);
    let elem = neighbor(index, k);
    lemma_neighbor_is_peer(index, k);
    assert(peers(index, elem));
    assert(cur[elem].subset_of(old[elem]));
    // candidates only leave
    assert forall|i: int| 0 <= i < 81 implies (#[trigger] nxt[i]).subset_of(old[i]) && nxt[i].finite() by {
        assert(cur[i].subset_of(old[i]));
        lemma_len_subset(cur[i], old[i]);
    }
    // each for a reason
    assert forall|i: int, x: int|
        0 <= i < 81 && old[i].contains(x) && !nxt[i].contains(x) implies #[trigger] reason(
        old,
        nxt,
        index,
        v,
        i,
        x,
    ) by {
        if !cur[i].contains(x) {
            assert(reason(old, cur, index, v, i, x));
            if !(peers(index, i) && x == v) {
                let t = choose|t: int| #[trigger] peers(t, i) && came_down_to(old, cur, t, x);
                assert(nxt[t].subset_of(cur[t]));
                assert(peers(t, i) && came_down_to(old, nxt, t, x));
            }
        }
    }
    // nothing leaves that a followed-through grid has left
    assert forall|h: Seq<Set<int>>| #[trigger] propagated(old, h, index, v) implies refines(
        h,
        nxt,
    ) by {
        assert(refines(h, cur));
        assert forall|i: int| 0 <= i < 81 implies (#[trigger] h[i]).subset_of(nxt[i]) by {
            assert(h[i].subset_of(cur[i]));
        }
    }
    if nxt[elem].len() == 0 {
        assert(peers(index, elem) && nxt[elem].len() == 0 && forall|j: int|
            0 <= j < 81 && j != elem && (#[trigger] old[j]).len() > 0 ==> nxt[j].len() > 0);
        if can_propagate(old, index, v) {
            let h = choose|h: Seq<Set<int>>| propagated(old, h, index, v);
            assert(refines(h, nxt));
            assert(h[elem].subset_of(nxt[elem]));
            lemma_len_subset(h[elem], nxt[elem]);
        }
    } else {
        let pending = if determined(nxt[elem]) && !determined(cur[elem]) {
            elem
        } else {
            -1
        };
        assert(narrows(nxt, cur));
        assert forall|t: int| 0 <= t < k + 1 implies nxt[#[trigger] neighbor(index, t)].len() > 0
            && !nxt[neighbor(index, t)].contains(v) by {
            if t < k {
                assert(cur[neighbor(index, t)].len() > 0 && !cur[neighbor(index, t)].contains(v));
                lemma_neighbor_is_peer(index, t);
            }
        }
        assert forall|i: int| #[trigger] fresh(old, nxt, i) && i != pending implies settled(
            nxt,
            i,
        ) by {
            if i == elem {
                assert(determined(cur[elem]));
                assert(fresh(old, cur, elem));
                lemma_determined_persists(cur, nxt, elem);
            } else {
                assert(fresh(old, cur, i));
            }
            lemma_fewer_candidates(cur, old);
            lemma_settled_persists(cur, nxt, i);
        }
    }
    if determined(nxt[elem]) && !determined(cur[elem]) {
        let w = value_of(nxt[elem]);
        assert(nxt[elem].contains(nxt[elem].choose()));
        assert(cur[elem].contains(w));
        lemma_above_undetermined(cur[elem], old[elem], w);
    }
}

/// The cell that has just been determined is followed up.
proof fn lemma_pass_follows(
    old: Seq<Set<int>>,
    nxt: Seq<Set<int>>,
    fin: Seq<Set<int>>,
    index: int,
    v: int,
    k: int,
    w: int,
    ok: bool,
)
    requires
        0 <= k < 20,
        passed(old, nxt, index, v, k + 1, neighbor(index, k)),
        nxt[neighbor(index, k)] == set![w],
        !determined(old[neighbor(index, k)]),
        old[neighbor(index, k)].contains(w),
        eliminated(nxt, fin, neighbor(index, k), w),
        ok == can_propagate(nxt, neighbor(index, k), w),
        ok ==> propagated(nxt, fin, neighbor(index, k), w),
        !ok ==> dead_end(nxt, fin, neighbor(index, k)),
    ensures
        eliminated(old, fin, index, v),
        ok ==> passed(old, fin, index, v, k + 1, -1),
        !ok ==> dead_end(old, fin, index) && !can_propagate(old, index, v),
{
    reveal(passed);
    let elem = neighbor(index, k);
    lemma_neighbor_is_peer(index, k);
    lemma_fewer_candidates(nxt, old);
    assert forall|i: int| 0 <= i < 81 implies (#[trigger] fin[i]).subset_of(old[i]) by {
        assert(fin[i].subset_of(nxt[i]));
        assert(nxt[i].subset_of(old[i]));
    }
    assert forall|i: int, x: int|
        0 <= i < 81 && old[i].contains(x) && !fin[i].contains(x) implies #[trigger] reason(
        old,
        fin,
        index,
        v,
        i,
        x,
    ) by {
        if !nxt[i].contains(x) {
            assert(reason(old, nxt, index, v, i, x));
            if !(peers(index, i) && x == v) {
                let t = choose|t: int| #[trigger] peers(t, i) && came_down_to(old, nxt, t, x);
                assert(fin[t].subset_of(nxt[t]));
                assert(peers(t, i) && came_down_to(old, fin, t, x));
            }
        } else {
            assert(reason(nxt, fin, elem, w, i, x));
            if peers(elem, i) && x == w {
                assert(fin[elem].subset_of(nxt[elem]));
                assert(peers(elem, i) && came_down_to(old, fin, elem, x));
            } else {
                let t = choose|t: int| #[trigger] peers(t, i) && came_down_to(nxt, fin, t, x);
                assert(nxt[t].subset_of(old[t]));
                lemma_above_undetermined(nxt[t], old[t], x);
                assert(peers(t, i) && came_down_to(old, fin, t, x));
            }
        }
    }
    assert forall|h: Seq<Set<int>>| #[trigger] propagated(old, h, index, v) implies refines(
        h,
        fin,
    ) && ok by {
        assert(refines(h, nxt));
        lemma_propagated_descends(old, nxt, h, index, v, elem, w);
    }
    if !ok && can_propagate(old, index, v) {
        let h = choose|h: Seq<Set<int>>| propagated(old, h, index, v);
        assert(propagated(old, h, index, v));
    }
    if ok {
        assert forall|i: int| 0 <= i < 81 && (#[trigger] old[i]).len() > 0 implies fin[i].len()
            > 0 by {
            assert(nxt[i].len() > 0);
        }
        assert forall|t: int| 0 <= t < k + 1 implies fin[#[trigger] neighbor(index, t)].len() > 0
            && !fin[neighbor(index, t)].contains(v) by {
            lemma_neighbor_is_peer(index, t);
            assert(nxt[neighbor(index, t)].len() > 0 && !nxt[neighbor(index, t)].contains(v));
            assert(fin[neighbor(index, t)].subset_of(nxt[neighbor(index, t)]));
        }
        assert forall|i: int| #[trigger] fresh(old, fin, i) implies settled(fin, i) by {
            if fresh(nxt, fin, i) {
            } else if i == elem {
                lemma_value_of(nxt[elem], w);
                lemma_determined_persists(nxt, fin, elem);
                assert forall|j: int| #[trigger] peers(elem, j) implies fin[j].len() > 0
                    && !fin[j].contains(value_of(fin[elem])) by {}
            } else {
                assert(fresh(old, nxt, i));
                lemma_settled_persists(nxt, fin, i);
            }
        }
    } else {
        let (i, t) = choose|i: int, t: int|
            {
                &&& #[trigger] peers(t, i)
                &&& fin[i].len() == 0
                &&& (t == elem || fresh(nxt, fin, t))
                &&& forall|j: int|
                    0 <= j < 81 && j != i && (#[trigger] nxt[j]).len() > 0 ==> fin[j].len() > 0
            };
        lemma_fewer_candidates(fin, nxt);
        if t == elem {
            assert(nxt[elem].len() > 0);
            assert(fin[elem].len() > 0);
            assert(fin[elem].subset_of(nxt[elem]));
            lemma_within_single(fin[elem], w);
            assert(fresh(old, fin, elem));
        } else {
            if determined(old[t]) {
                lemma_determined_persists(old, nxt, t);
            }
            assert(fresh(old, fin, t));
        }
        assert forall|j: int| 0 <= j < 81 && j != i && (#[trigger] old[j]).len() > 0 implies fin[j].len()
            > 0 by {
            assert(nxt[j].len() > 0);
        }
        assert(peers(t, i) && fin[i].len() == 0 && (t == index || fresh(old, fin, t)));
    }
}

/// A candidate leaves a cell only as a peer of the cell that holds it: the
/// cell of the assignment, or a cell that the pass has brought down to the
/// candidate. In both cases the cell that loses the candidate stands in the
/// peer list of the cell that holds it.
pub proof fn lemma_pass_touches_peers_only(
    old: Seq<Set<int>>,
    new: Seq<Set<int>>,
    index: int,
    v: int,
    i: int,
    x: int,
)
    requires
        eliminated(old, new, index, v),
        0 <= i < 81,
        old[i].contains(x),
        !new[i].contains(x),
    ensures
        (is_neighbor(index, i) && x == v) || exists|t: int|
            is_neighbor(t, i) && came_down_to(old, new, t, x),
{
    assert(reason(old, new, index, v, i, x));
    if peers(index, i) && x == v {
        lemma_peer_is_neighbor(index, i);
    } else {
        let t = choose|t: int| #[trigger] peers(t, i) && came_down_to(old, new, t, x);
        lemma_peer_is_neighbor(t, i);
        assert(is_neighbor(t, i) && came_down_to(old, new, t, x));
    }
}

/// A pass that succeeds leaves the value of the assignment in the cell of
/// the assignment.
pub proof fn lemma_pass_spares_origin(old: Seq<Set<int>>, new: Seq<Set<int>>, index: int, v: int)
    requires
        is_grid(old),
        0 <= index < 81,
        eliminated(old, new, index, v),
        propagated(old, new, index, v),
        old[index].contains(v),
    ensures
        new[index].contains(v),
{
    if !new[index].contains(v) {
        assert(reason(old, new, index, v, index, v));
        let t = choose|t: int| #[trigger] peers(t, index) && came_down_to(old, new, t, v);
        assert(peers(index, t));
        assert(new[t].len() > 0 && !new[t].contains(v));
        lemma_within_single(new[t], v);
    }
}

/// The outcome of the pass depends on the grid, the cell and the value
/// alone: two grids that both meet what a pass that succeeds ensures are the
/// same grid.
pub proof fn lemma_pass_result_unique(
    old: Seq<Set<int>>,
    a: Seq<Set<int>>,
    b: Seq<Set<int>>,
    index: int,
    v: int,
)
    requires
        eliminated(old, a, index, v),
        propagated(old, a, index, v),
        eliminated(old, b, index, v),
        propagated(old, b, index, v),
    ensures
        a == b,
{
    assert(refines(a, b) && refines(b, a));
    assert forall|i: int| 0 <= i < 81 implies a[i] == b[i] by {
        assert(a[i].subset_of(b[i]) && b[i].subset_of(a[i]));
        assert(a[i] =~= b[i]);
    }
    assert(a =~= b);
}

/// Makes `choice.1` the one candidate of cell `choice.0`.
pub fn make_choice(puzzle: &mut Puzzle, choice: (usize, u8))
    requires
        choice.0 < 81,
        choice.1 < 16,
    ensures
        final(puzzle)@ == old(puzzle)@.update(choice.0 as int, set![choice.1 as int]),
{
    puzzle.storage[choice.0].set_value(choice.1 as usize);
    assert(puzzle@ =~= old(puzzle)@.update(choice.0 as int, set![choice.1 as int]));
}

/// The pointwise pass. Cell `index` has been assigned `fill_val`: the value
/// is removed from the candidates of every peer of the cell. A peer that is
/// left with one candidate is followed up in the same way. The pass fails, and
/// returns `false`, as soon as a peer is left with no candidate.
pub fn update_constraints_pointwise(
    puzzle: &mut Puzzle,
    neighbors: &Neighbors,
    index: usize,
    fill_val: u8,
) -> (ok: bool)
    requires
        index < 81,
        fill_val < 16,
    ensures
        eliminated(old(puzzle)@, final(puzzle)@, index as int, fill_val as int),
        ok == can_propagate(old(puzzle)@, index as int, fill_val as int),
        ok ==> propagated(old(puzzle)@, final(puzzle)@, index as int, fill_val as int),
        !ok ==> dead_end(old(puzzle)@, final(puzzle)@, index as int),
    decreases candidates_left(old(puzzle)@),
{
    let list = &neighbors[index];
    proof {
        puzzle.lemma_view_is_grid();
        lemma_pass_starts(puzzle@, index as int, fill_val as int);
    }
    let mut k: usize = 0;
    while k < 20
        invariant
            k <= 20,
            index < 81,
            fill_val < 16,
            list@ == peer_table()[index as int],
            is_grid(old(puzzle)@),
            passed(old(puzzle)@, puzzle@, index as int, fill_val as int, k as int, -1),
            candidates_left(puzzle@) <= candidates_left(old(puzzle)@),
        decreases 20 - k,
    {
        let elem = list[k];
        let ghost cur = puzzle@;
        proof {
            lemma_neighbor_is_peer(index as int, k as int);
            assert(elem == neighbor(index as int, k as int));
            puzzle.lemma_view_is_grid();
        }
        let pre_dof = puzzle.storage[elem].num_choices();
        puzzle.storage[elem].clear(fill_val as usize);
        let dof = puzzle.storage[elem].num_choices();
        proof {
            assert(puzzle@ =~= cur.update(elem as int, cur[elem as int].remove(fill_val as int)));
            lemma_pass_clears(
                old(puzzle)@,
                cur,
                puzzle@,
                index as int,
                fill_val as int,
                k as int,
            );
            lemma_fewer_candidates(puzzle@, old(puzzle)@);
        }
        if dof == 0 {
            // conflict
            return false;
        } else if dof == 1 && pre_dof == 2 {
            // this peer has just been determined: follow it up
            let value = puzzle.storage[elem].get_value() as u8;
            let ghost nxt = puzzle@;
            proof {
                lemma_value_of(nxt[elem as int], value as int);
                assert(nxt[elem as int].len() < old(puzzle)@[elem as int].len());
            }
            make_choice(puzzle, (elem, value));
            assert(puzzle@ =~= nxt);
            let followed = update_constraints_pointwise(puzzle, neighbors, elem, value);
            proof {
                lemma_pass_follows(
                    old(puzzle)@,
                    nxt,
                    puzzle@,
                    index as int,
                    fill_val as int,
                    k as int,
                    value as int,
                    followed,
                );
                lemma_fewer_candidates(puzzle@, old(puzzle)@);
            }
            if !followed {
                return false;
            }
        }
        k += 1;
    }
    proof {
        lemma_pass_ends(old(puzzle)@, puzzle@, index as int, fill_val as int);
    }
    true
}

} // verus!
