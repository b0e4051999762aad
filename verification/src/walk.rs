//! Walks over a layout, their cost, and why the straight-line distance never
//! overestimates it.

use vstd::prelude::*;
use crate::cost::{adjacent, dist_spec, lemma_dist_consistent, lemma_dist_to_self, step_cost};

verus! {

/// The terrain of a grid as a search sees it: its extents and where its walls
/// stand.
pub struct Layout {
    pub x_size: int,
    pub y_size: int,
    pub walls: Set<(int, int)>,
}

impl Layout {
    /// The cell lies inside the grid.
    pub open spec fn in_bounds(self, c: (int, int)) -> bool {
        0 <= c.0 < self.x_size && 0 <= c.1 < self.y_size
    }

    /// The cell lies inside the grid and no wall stands on it.
    pub open spec fn passable(self, c: (int, int)) -> bool {
        self.in_bounds(c) && !self.walls.contains(c)
    }
}

/// A walk: one passable cell or more, each next to the one before it.
pub open spec fn is_walk(layout: Layout, w: Seq<(int, int)>) -> bool {
    &&& w.len() >= 1
    &&& forall|i: int| 0 <= i < w.len() ==> layout.passable(#[trigger] w[i])
    &&& forall|i: int, j: int|
        0 <= i && j == i + 1 && j < w.len() ==> adjacent(#[trigger] w[i], #[trigger] w[j])
}

/// The sum of the costs of the steps of a walk.
pub open spec fn walk_cost(w: Seq<(int, int)>) -> int
    decreases w.len(),
{
    if w.len() <= 1 {
        0
    } else {
        walk_cost(w.drop_last()) + step_cost(w[w.len() - 2], w[w.len() - 1])
    }
}

/// The walk leads from `a` to `b`.
pub open spec fn connects(layout: Layout, w: Seq<(int, int)>, a: (int, int), b: (int, int)) -> bool {
    &&& is_walk(layout, w)
    &&& w.first() == a
    &&& w.last() == b
}

/// Some walk leads from `a` to `b`.
pub open spec fn reachable(layout: Layout, a: (int, int), b: (int, int)) -> bool {
    exists|w: Seq<(int, int)>| connects(layout, w, a, b)
}

/// A walk has no negative cost.
pub proof fn lemma_walk_cost_nonnegative(w: Seq<(int, int)>)
    ensures
        0 <= walk_cost(w),
    decreases w.len(),
{
    if w.len() > 1 {
        lemma_walk_cost_nonnegative(w.drop_last());
    }
}

/// The first `n` cells of a walk are a walk.
pub proof fn lemma_walk_prefix(layout: Layout, w: Seq<(int, int)>, n: int)
    requires
        is_walk(layout, w),
        1 <= n <= w.len(),
    ensures
        is_walk(layout, w.take(n)),
        w.take(n).first() == w.first(),
        w.take(n).last() == w[n - 1],
{
    let p = w.take(n);
    assert forall|i: int| 0 <= i < p.len() implies layout.passable(#[trigger] p[i]) by {
        assert(p[i] == w[i]);
    }
    assert forall|i: int, j: int| 0 <= i && j == i + 1 && j < p.len() implies adjacent(
        #[trigger] p[i],
        #[trigger] p[j],
    ) by {
        assert(p[i] == w[i] && p[j] == w[j]);
    }
}

/// A walk goes on by one step to a passable neighbour of its last cell, and
/// its cost grows by the cost of that step.
pub proof fn lemma_walk_extend(layout: Layout, w: Seq<(int, int)>, c: (int, int))
    requires
        is_walk(layout, w),
        layout.passable(c),
        adjacent(w.last(), c),
    ensures
        is_walk(layout, w.push(c)),
        w.push(c).first() == w.first(),
        w.push(c).last() == c,
        walk_cost(w.push(c)) == walk_cost(w) + step_cost(w.last(), c),
{
    let e = w.push(c);
    assert(e.drop_last() =~= w);
    assert forall|i: int| 0 <= i < e.len() implies layout.passable(#[trigger] e[i]) by {
        if i < w.len() {
            assert(e[i] == w[i]);
        }
    }
    assert forall|i: int, j: int| 0 <= i && j == i + 1 && j < e.len() implies adjacent(
        #[trigger] e[i],
        #[trigger] e[j],
    ) by {
        if j < w.len() {
            assert(e[i] == w[i] && e[j] == w[j]);
        } else {
            assert(e[i] == w.last());
        }
    }
}

/// The cost of the first `n + 1` cells of a walk is that of the first `n`
/// plus the cost of the step that follows them.
pub proof fn lemma_prefix_cost_step(w: Seq<(int, int)>, n: int)
    requires
        1 <= n < w.len(),
    ensures
        walk_cost(w.take(n + 1)) == walk_cost(w.take(n)) + step_cost(w[n - 1], w[n]),
{
    let p = w.take(n + 1);
    assert(p.drop_last() =~= w.take(n));
    assert(p[p.len() - 2] == w[n - 1]);
    assert(p[p.len() - 1] == w[n]);
}

/// Along a walk, the cost so far plus the straight-line distance that remains
/// to a target never falls.
pub proof fn lemma_potential_rises(layout: Layout, w: Seq<(int, int)>, t: (int, int), j: int)
    requires
        is_walk(layout, w),
        0 <= j < w.len(),
    ensures
        walk_cost(w.take(j + 1)) + dist_spec(w[j], t) <= walk_cost(w) + dist_spec(w.last(), t),
    decreases w.len() - j,
{
    if j == w.len() - 1 {
        assert(w.take(j + 1) =~= w);
    } else {
        lemma_potential_rises(layout, w, t, j + 1);
        lemma_prefix_cost_step(w, j + 1);
        assert(adjacent(w[j], w[j + 1]));
        lemma_dist_consistent(w[j], w[j + 1], t);
    }
}

/// The straight-line distance from a cell to a target is at most the cost of
/// any walk from the cell to the target.
pub proof fn lemma_heuristic_admissible(
    layout: Layout,
    w: Seq<(int, int)>,
    c: (int, int),
    target: (int, int),
)
    requires
        connects(layout, w, c, target),
    ensures
        dist_spec(c, target) <= walk_cost(w),
{
    lemma_potential_rises(layout, w, target, 0);
    lemma_dist_to_self(target);
    assert(w.take(1).len() == 1);
}

} // verus!
