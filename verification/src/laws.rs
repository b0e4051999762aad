//! What holds of the library as a whole.

use vstd::prelude::*;
use crate::cost::{adjacent, step_cost, DIAGONAL, STRAIGHT};
use crate::grid::{fresh_node, text_error, Grid};
use crate::node::{Node, NodeState};
use crate::render::picture;
use crate::search::{cheapest_path, path_walk, search_outcome};
use crate::text::symbol_at;
use crate::walk::{
    connects, is_walk, lemma_heuristic_admissible, lemma_walk_extend, lemma_walk_prefix,
    reachable, walk_cost, Layout,
};

verus! {

/// The distance between two numbers.
pub open spec fn gap(a: int, b: int) -> int {
    if a <= b {
        b - a
    } else {
        a - b
    }
}

/// The number of steps that a king of chess needs from one cell to another on
/// an empty board: the greater of the distances in rows and in columns.
pub open spec fn chebyshev(a: (int, int), b: (int, int)) -> int {
    if gap(a.0, b.0) >= gap(a.1, b.1) {
        gap(a.0, b.0)
    } else {
        gap(a.1, b.1)
    }
}

/// The sum of the distances in rows and in columns.
pub open spec fn manhattan(a: (int, int), b: (int, int)) -> int {
    gap(a.0, b.0) + gap(a.1, b.1)
}

/// The cost of the cheapest way from one cell to another on an empty board:
/// diagonal steps as long as rows and columns both differ, straight steps
/// for the rest.
pub open spec fn direct_cost(a: (int, int), b: (int, int)) -> int {
    let diagonal = manhattan(a, b) - chebyshev(a, b);
    STRAIGHT * (chebyshev(a, b) - diagonal) + DIAGONAL * diagonal
}

/// The number of the diagonal steps of a walk.
pub open spec fn diagonal_steps(w: Seq<(int, int)>) -> int
    decreases w.len(),
{
    if w.len() <= 1 {
        0
    } else {
        diagonal_steps(w.drop_last()) + (if step_cost(w[w.len() - 2], w[w.len() - 1]) == DIAGONAL {
            1int
        } else {
            0int
        })
    }
}

/// `x` lies between `a` and `b`, or is one of them.
pub open spec fn between(a: int, x: int, b: int) -> bool {
    (a <= x <= b) || (b <= x <= a)
}

/// No wall stands in the rectangle of cells that two cells span.
pub open spec fn clear_between(layout: Layout, a: (int, int), b: (int, int)) -> bool {
    forall|c: (int, int)|
        between(a.0, c.0, b.0) && between(a.1, c.1, b.1) ==> !(#[trigger] layout.walls.contains(c))
}

/// A walk of `n` steps, `d` of them diagonal, costs `n - d` straight steps
/// and `d` diagonal ones, and its ends lie no further apart than `n` rows or
/// columns, nor than `n + d` rows and columns together.
pub proof fn lemma_walk_counts(layout: Layout, w: Seq<(int, int)>)
    requires
        is_walk(layout, w),
    ensures
        0 <= diagonal_steps(w) <= w.len() - 1,
        walk_cost(w) == STRAIGHT * (w.len() - 1 - diagonal_steps(w)) + DIAGONAL * diagonal_steps(w),
        chebyshev(w.first(), w.last()) <= w.len() - 1,
        manhattan(w.first(), w.last()) <= w.len() - 1 + diagonal_steps(w),
    decreases w.len(),
{
    if w.len() > 1 {
        let rest = w.drop_last();
        assert(rest =~= w.take(w.len() - 1));
        lemma_walk_prefix(layout, w, w.len() - 1);
        lemma_walk_counts(layout, rest);
        assert(adjacent(w[w.len() - 2], w[w.len() - 1]));
        assert(rest.last() == w[w.len() - 2]);
        assert(rest.first() == w.first());
    }
}

/// No walk between two cells is cheaper than the cheapest way between them
/// on an empty board, and one that is as cheap has as many steps as a king
/// needs.
pub proof fn lemma_walk_at_least_direct(layout: Layout, w: Seq<(int, int)>)
    requires
        is_walk(layout, w),
    ensures
        direct_cost(w.first(), w.last()) <= walk_cost(w),
        walk_cost(w) == direct_cost(w.first(), w.last()) ==> w.len() - 1 == chebyshev(
            w.first(),
            w.last(),
        ),
{
    lemma_walk_counts(layout, w);
}

/// Where no wall stands between two cells of a layout, a walk leads from the
/// one to the other that costs what the cheapest way between them costs on
/// an empty board.
pub proof fn lemma_direct_walk(layout: Layout, a: (int, int), b: (int, int)) -> (w: Seq<(int, int)>)
    requires
        layout.in_bounds(a),
        layout.in_bounds(b),
        clear_between(layout, a, b),
    ensures
        connects(layout, w, a, b),
        walk_cost(w) == direct_cost(a, b),
    decreases chebyshev(a, b),
{
    if a == b {
        let w = seq![a];
        assert(!layout.walls.contains(a));
        assert(w[0] == a);
        w
    } else {
        let dx: int = if b.0 > a.0 {
            1
        } else if b.0 < a.0 {
            -1
        } else {
            0
        };
        let dy: int = if b.1 > a.1 {
            1
        } else if b.1 < a.1 {
            -1
        } else {
            0
        };
        let near = (b.0 - dx, b.1 - dy);
        assert forall|c: (int, int)|
            between(a.0, c.0, near.0) && between(a.1, c.1, near.1) implies !(#[trigger] layout.walls.contains(
            c,
        )) by {
            assert(between(a.0, c.0, b.0) && between(a.1, c.1, b.1));
        }
        let head = lemma_direct_walk(layout, a, near);
        assert(!layout.walls.contains(b));
        lemma_walk_extend(layout, head, b);
        head.push(b)
    }
}

/// Where no wall stands between the start and the destination, a walk leads
/// from the one to the other.
pub proof fn lemma_clear_way_is_reachable(grid: Grid)
    requires
        grid.wf(),
        clear_between(grid.layout(), grid.start_pos@, grid.end_pos@),
    ensures
        reachable(grid.layout(), grid.start_pos@, grid.end_pos@),
{
    let w = lemma_direct_walk(grid.layout(), grid.start_pos@, grid.end_pos@);
}

/// Where no wall stands between the start and the destination, a cheapest
/// path has as many cells as a king needs steps from the one to the other,
/// and the best known cost of the destination is the sum of the costs of the
/// steps of the path: that of the diagonal steps while rows and columns both
/// differ, and of straight steps for the rest.
pub proof fn lemma_clear_way_path(grid: Grid, path: Seq<Node>)
    requires
        grid.wf(),
        clear_between(grid.layout(), grid.start_pos@, grid.end_pos@),
        cheapest_path(grid, path),
    ensures
        path.len() == chebyshev(grid.start_pos@, grid.end_pos@),
        grid.at(grid.end_pos@).g == walk_cost(path_walk(path, grid.end_pos@)),
        grid.at(grid.end_pos@).g == direct_cost(grid.start_pos@, grid.end_pos@),
{
    let w = path_walk(path, grid.end_pos@);
    let direct = lemma_direct_walk(grid.layout(), grid.start_pos@, grid.end_pos@);
    assert(connects(grid.layout(), direct, grid.start_pos@, grid.end_pos@));
    lemma_walk_at_least_direct(grid.layout(), w);
}

/// Searches on two grids with the same terrain end alike: both find a path
/// or neither does, and two paths found cost the same, though they need not
/// pass the same cells where several ways are equally cheap.
pub proof fn lemma_same_terrain_same_outcome(
    first: Grid,
    first_after: Grid,
    first_result: Option<Seq<Node>>,
    second: Grid,
    second_after: Grid,
    second_result: Option<Seq<Node>>,
)
    requires
        first.wf(),
        second.wf(),
        first.terrain() == second.terrain(),
        search_outcome(first, first_after, first_result),
        search_outcome(second, second_after, second_result),
    ensures
        first_result is None <==> second_result is None,
        first_result matches Some(p) ==> second_result matches Some(q) ==> {
            &&& walk_cost(path_walk(p, first.end_pos@)) == walk_cost(path_walk(q, second.end_pos@))
            &&& first_after.at(first.end_pos@).g == second_after.at(second.end_pos@).g
        },
{
    lemma_same_terrain_same_layout(first, second);
    match (first_result, second_result) {
        (Some(p), Some(q)) => {
            assert(connects(
                first_after.layout(),
                path_walk(q, second.end_pos@),
                first.start_pos@,
                first.end_pos@,
            ));
            assert(connects(
                second_after.layout(),
                path_walk(p, first.end_pos@),
                second.start_pos@,
                second.end_pos@,
            ));
        },
        _ => {},
    }
}

/// Grids with the same terrain have the same extents, the same walls, the
/// same start and the same destination.
pub proof fn lemma_same_terrain_same_layout(first: Grid, second: Grid)
    requires
        first.wf(),
        second.wf(),
        first.terrain() == second.terrain(),
    ensures
        first.x_size == second.x_size,
        first.y_size == second.y_size,
        first.layout() == second.layout(),
        first.end_pos == second.end_pos,
        first.start_pos == second.start_pos,
{
    assert(first.terrain().len() == first.x_size);
    assert(second.terrain().len() == second.x_size);
    assert(first.terrain()[0].len() == first.y_size);
    assert(second.terrain()[0].len() == second.y_size);
    assert forall|i: int, j: int| 0 <= i < first.x_size && 0 <= j < first.y_size implies (#[trigger] first.map@[i]@[j]).node_state
        == second.map@[i]@[j].node_state by {
        assert(first.terrain()[i][j] == first.map@[i]@[j].node_state);
        assert(second.terrain()[i][j] == second.map@[i]@[j].node_state);
    }
    let e = first.end_pos@;
    assert(first.map@[e.0]@[e.1].node_state == NodeState::Destination);
    assert(second.map@[e.0]@[e.1].node_state == NodeState::Destination);
    let s = first.start_pos@;
    let t = second.start_pos@;
    if s != e {
        assert(first.map@[s.0]@[s.1].node_state == NodeState::Start);
        assert(second.map@[s.0]@[s.1].node_state == NodeState::Start);
    } else if t != e {
        assert(second.map@[t.0]@[t.1].node_state == NodeState::Start);
        assert(first.map@[t.0]@[t.1].node_state == NodeState::Start);
    }
    assert(first.layout().walls =~= second.layout().walls) by {
        assert forall|c: (int, int)| first.layout().walls.contains(c) == second.layout().walls.contains(
            c,
        ) by {
            if first.in_bounds(c) {
                assert(first.map@[c.0]@[c.1].node_state == second.map@[c.0]@[c.1].node_state);
            }
        }
    }
}

/// The estimate of a cell never overestimates: it is at most the cost of any
/// walk from the cell to the destination.
pub proof fn lemma_estimate_is_admissible(grid: Grid, c: (int, int), w: Seq<(int, int)>)
    requires
        grid.wf(),
        grid.in_bounds(c),
        connects(grid.layout(), w, c, grid.end_pos@),
    ensures
        grid.at(c).h <= walk_cost(w),
{
    lemma_heuristic_admissible(grid.layout(), w, c, grid.end_pos@);
    assert(grid.map@[c.0]@[c.1].h == crate::cost::dist_spec(c, grid.end_pos@));
}

/// The picture of a grid that was read from a text shows, cell for cell, the
/// terrain that the text describes, whatever path is drawn into it: a wall
/// for the character of a wall, the start and the destination for theirs,
/// open ground for any other.
pub proof fn lemma_text_round_trip(
    text: Seq<Seq<char>>,
    grid: Grid,
    path: Seq<Node>,
    i: int,
    j: int,
)
    requires
        text_error(text, grid.x_size, grid.y_size) is None,
        forall|r: int, c: int|
            0 <= r < grid.x_size && 0 <= c < grid.y_size ==> #[trigger] grid.map@[r]@[c]
                == fresh_node((r, c), NodeState::of_symbol(symbol_at(text, (r, c))), grid.end_pos@),
        0 <= i < grid.x_size,
        0 <= j < grid.y_size,
    ensures
        picture(grid, path)[i + 1][j + 1].paint.terrain() == Some(
            NodeState::of_symbol(symbol_at(text, (i, j))),
        ),
        picture(grid, path)[i + 1][j + 1].paint.terrain()->0.symbol_spec() == (if symbol_at(
            text,
            (i, j),
        ) == crate::node::WALL || symbol_at(text, (i, j)) == crate::node::START || symbol_at(
            text,
            (i, j),
        ) == crate::node::DESTINATION {
            symbol_at(text, (i, j))
        } else {
            crate::node::OPEN
        }),
{
    let node = grid.map@[i]@[j];
    assert(node.node_state == NodeState::of_symbol(symbol_at(text, (i, j))));
}

} // verus!
