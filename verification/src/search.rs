//! The A* search over a grid, and the proof that the path it finds is a
//! cheapest one.

use vstd::prelude::*;
use crate::cost::{
    adjacent, dist, dist_spec, lemma_dist_bounded, lemma_dist_of_neighbours, lemma_dist_to_self,
    step_cost, DIAGONAL, MAX_CELLS, UNREACHED,
};
use crate::frontier::Frontier;
use crate::grid::{lemma_extents_bounded, Grid};
use crate::node::{Node, NodeState};
use crate::tally::{
    cost_weight, lemma_map_sum_bounds, lemma_map_sum_update, reached_count, reached_weight,
    total_cost_of,
};
use crate::walk::{
    connects, is_walk, lemma_potential_rises, lemma_prefix_cost_step, lemma_walk_cost_nonnegative,
    lemma_walk_extend, reachable, walk_cost,
};

verus! {

/// The cells of a path and then its goal, from the far end of the path on:
/// a path lists the cell before the goal first and the start last.
pub open spec fn path_walk(path: Seq<Node>, goal: (int, int)) -> Seq<(int, int)> {
    Seq::new(
        path.len() + 1,
        |i: int|
            if i < path.len() {
                path[path.len() - 1 - i].pos@
            } else {
                goal
            },
    )
}

/// The snapshot without its link to the one before it.
pub open spec fn cleared(node: Node) -> Node {
    Node { parent: None, ..node }
}

/// Snapshot `k` names no snapshot but an earlier one as the one before it.
pub open spec fn linked(records: Seq<Node>, k: int) -> bool {
    records[k].parent matches Some(p) ==> p < k
}

/// The snapshots that lead back from `parent` to one that names none before
/// it, each without its link.
pub open spec fn trail(records: Seq<Node>, parent: Option<usize>) -> Seq<Node>
    decreases
            (match parent {
                None => 0int,
                Some(p) => p + 1,
            }),
{
    match parent {
        None => Seq::empty(),
        Some(p) => if p < records.len() && linked(records, p as int) {
            seq![cleared(records[p as int])] + trail(records, records[p as int].parent)
        } else {
            Seq::empty()
        },
    }
}

/// The cells from that of the first snapshot in line to that of snapshot `k`.
pub open spec fn chain(records: Seq<Node>, k: int) -> Seq<(int, int)>
    decreases k,
{
    match records[k].parent {
        Some(p) => if 0 <= p < k {
            chain(records, p as int).push(records[k].pos@)
        } else {
            seq![records[k].pos@]
        },
        None => seq![records[k].pos@],
    }
}

/// Snapshot `k` was rightly taken: it shows a passable cell of the grid with
/// its terrain and its estimate; it is the start at no cost, or one step
/// further than the snapshot before it and dearer by that step.
pub open spec fn record_ok(ground: Grid, records: Seq<Node>, k: int) -> bool {
    let r = records[k];
    &&& ground.in_bounds(r.pos@)
    &&& r.node_state == ground.at(r.pos@).node_state
    &&& r.node_state != NodeState::Wall
    &&& r.h == ground.at(r.pos@).h
    &&& r.f == r.g + r.h
    &&& match r.parent {
        None => r.pos == ground.start_pos && r.g == 0,
        Some(p) => {
            &&& p < k
            &&& adjacent(records[p as int].pos@, r.pos@)
            &&& r.g == records[p as int].g + step_cost(records[p as int].pos@, r.pos@)
        },
    }
}

/// All snapshots were rightly taken.
pub open spec fn records_ok(ground: Grid, records: Seq<Node>) -> bool {
    forall|k: int| 0 <= k < records.len() ==> #[trigger] record_ok(ground, records, k)
}

/// The grid is the ground with other costs: no cell has moved or changed its
/// terrain or its estimate.
pub open spec fn same_ground(ground: Grid, grid: Grid) -> bool {
    &&& grid.x_size == ground.x_size
    &&& grid.y_size == ground.y_size
    &&& grid.start_pos == ground.start_pos
    &&& grid.end_pos == ground.end_pos
    &&& grid.map@.len() == ground.map@.len()
    &&& forall|i: int| 0 <= i < grid.x_size ==> (#[trigger] grid.map@[i])@.len() == grid.y_size
    &&& forall|i: int, j: int|
        0 <= i < grid.x_size && 0 <= j < grid.y_size ==> {
            let node = #[trigger] grid.map@[i]@[j];
            &&& node.pos == ground.map@[i]@[j].pos
            &&& node.parent == ground.map@[i]@[j].parent
            &&& node.node_state == ground.map@[i]@[j].node_state
            &&& node.h == ground.map@[i]@[j].h
        }
}

/// The place of a neighbour among the nine cells round a cell, row by row.
pub open spec fn offset_code(c: (int, int), n: (int, int)) -> int {
    3 * (n.0 - c.0 + 1) + (n.1 - c.1 + 1)
}

/// A snapshot of the cell that holds its best known cost waits in the queue.
pub open spec fn open_at(grid: Grid, frontier: Frontier, c: (int, int)) -> bool {
    exists|k: int|
        #[trigger] frontier.waits(k) && frontier.records@[k].pos@ == c && frontier.records@[k].g
            == grid.at(c).g
}

/// Of the passable neighbours of the cell, those among the first `done`
/// places cost at most `cost` and the step to them.
pub open spec fn relaxed_upto(ground: Grid, grid: Grid, c: (int, int), cost: int, done: int) -> bool {
    forall|n: (int, int)|
        #[trigger] adjacent(c, n) && ground.layout().passable(n) && offset_code(c, n) < done
            ==> grid.at(n).g <= cost + step_cost(c, n)
}

/// A cell that the search is expanding: its snapshot's cost, and how many of
/// the nine places round it are done.
pub struct Expansion {
    pub cell: (int, int),
    pub cost: int,
    pub done: int,
}

/// The cell is unreached, or a snapshot with its best known cost waits, or
/// none of its neighbours can be reached more cheaply through it; the cell
/// being expanded need only be so for the places that are done.
pub open spec fn settled(
    ground: Grid,
    grid: Grid,
    frontier: Frontier,
    hole: Option<Expansion>,
    c: (int, int),
) -> bool {
    ||| grid.at(c).g == UNREACHED
    ||| open_at(grid, frontier, c)
    ||| relaxed_upto(ground, grid, c, grid.at(c).g as int, 9)
    ||| (hole matches Some(e) && e.cell == c && grid.at(c).g == e.cost && relaxed_upto(
        ground,
        grid,
        c,
        e.cost,
        e.done,
    ))
}

/// The most that a cost in the search can be: each reached cell but the
/// first allows for one diagonal step.
pub open spec fn cost_cap(grid: Grid) -> int {
    DIAGONAL * (reached_count(grid.map@) - 1)
}

/// Some snapshot shows the cell with its best known cost.
pub open spec fn witnessed(grid: Grid, records: Seq<Node>, c: (int, int)) -> bool {
    exists|k: int|
        0 <= k < records.len() && (#[trigger] records[k]).pos@ == c && records[k].g == grid.at(c).g
}

/// The total cost that each cell holds is the one it had on the ground, but
/// for the start, whose total cost is its estimate.
pub open spec fn totals_kept(ground: Grid, grid: Grid) -> bool {
    forall|i: int, j: int|
        0 <= i < grid.x_size && 0 <= j < grid.y_size ==> (#[trigger] grid.map@[i]@[j]).f == (if (i, j)
            == ground.start_pos@ {
            ground.map@[i]@[j].h
        } else {
            ground.map@[i]@[j].f
        })
}

/// What holds of a search between two steps.
pub open spec fn search_inv(ground: Grid, grid: Grid, frontier: Frontier, hole: Option<Expansion>) -> bool {
    &&& ground.wf()
    &&& same_ground(ground, grid)
    &&& frontier.wf()
    &&& records_ok(ground, frontier.records@)
    &&& forall|k: int|
        0 <= k < frontier.records@.len() ==> grid.at((#[trigger] frontier.records@[k]).pos@).g
            <= frontier.records@[k].g <= cost_cap(grid)
    &&& forall|i: int, j: int|
        0 <= i < grid.x_size && 0 <= j < grid.y_size ==> (#[trigger] grid.map@[i]@[j]).g
            == UNREACHED || grid.map@[i]@[j].g <= cost_cap(grid)
    &&& grid.at(grid.start_pos@).g == 0
    &&& totals_kept(ground, grid)
    &&& forall|c: (int, int)|
        grid.in_bounds(c) && grid.at(c).g != UNREACHED ==> #[trigger] witnessed(
            grid,
            frontier.records@,
            c,
        )
    &&& forall|c: (int, int)| grid.in_bounds(c) ==> #[trigger] settled(ground, grid, frontier, hole, c)
    &&& (grid.at(grid.end_pos@).g != UNREACHED ==> open_at(grid, frontier, grid.end_pos@))
}

/// No more cells are reached than the grid has, so that no cost in a search
/// comes near the cost of an unreached cell.
proof fn lemma_reached_bounded(ground: Grid, grid: Grid)
    requires
        ground.wf(),
        same_ground(ground, grid),
    ensures
        0 <= reached_count(grid.map@) <= grid.x_size * grid.y_size <= MAX_CELLS,
        cost_cap(grid) + DIAGONAL < 1_500_000_000_000_000,
{
    lemma_map_sum_bounds(grid.map@, reached_weight(), 0, 1, grid.y_size as int);
    let n = grid.x_size * grid.y_size;
    assert(0 * n == 0 && 1 * n == n) by (nonlinear_arith);
}

/// The cells of the chain of a rightly taken snapshot are a walk from the
/// start to the cell of the snapshot, and the snapshot's cost is its cost.
pub proof fn lemma_chain_is_walk(ground: Grid, records: Seq<Node>, k: int)
    requires
        ground.wf(),
        records_ok(ground, records),
        0 <= k < records.len(),
    ensures
        connects(ground.layout(), chain(records, k), ground.start_pos@, records[k].pos@),
        walk_cost(chain(records, k)) == records[k].g,
    decreases k,
{
    assert(record_ok(ground, records, k));
    let r = records[k];
    assert(ground.layout().passable(r.pos@));
    match r.parent {
        Some(p) => {
            lemma_chain_is_walk(ground, records, p as int);
            lemma_walk_extend(ground.layout(), chain(records, p as int), r.pos@);
        },
        None => {
            let w = seq![r.pos@];
            assert(w[0] == r.pos@);
        },
    }
}

/// The trail that leads back from a rightly taken snapshot, read from its far
/// end and followed by the cell of the snapshot, is the chain of the snapshot.
pub proof fn lemma_trail_is_chain(ground: Grid, records: Seq<Node>, k: int)
    requires
        records_ok(ground, records),
        0 <= k < records.len(),
    ensures
        path_walk(trail(records, records[k].parent), records[k].pos@) == chain(records, k),
        trail(records, records[k].parent).len() + 1 == chain(records, k).len(),
    decreases k,
{
    assert(record_ok(ground, records, k));
    let r = records[k];
    let t = trail(records, r.parent);
    match r.parent {
        Some(p) => {
            assert(record_ok(ground, records, p as int));
            lemma_trail_is_chain(ground, records, p as int);
            let up = trail(records, records[p as int].parent);
            assert(t == seq![cleared(records[p as int])] + up);
            let left = path_walk(t, r.pos@);
            let right = chain(records, p as int).push(r.pos@);
            assert(left.len() == right.len());
            assert forall|i: int| 0 <= i < left.len() implies left[i] == right[i] by {
                if i < t.len() {
                    if i < up.len() {
                        assert(t[t.len() - 1 - i] == up[up.len() - 1 - i]);
                        assert(path_walk(up, records[p as int].pos@)[i] == up[up.len() - 1 - i].pos@);
                    } else {
                        assert(t[t.len() - 1 - i] == cleared(records[p as int]));
                        assert(path_walk(up, records[p as int].pos@)[i] == records[p as int].pos@);
                    }
                }
            }
            assert(left =~= right);
        },
        None => {
            assert(t.len() == 0);
            assert(path_walk(t, r.pos@) =~= seq![r.pos@]);
        },
    }
}

/// A walk from the start, followed up to its cell `j`, comes to a cell of its
/// own whose best known cost is at most the cost of the walk up to there: one
/// before `j` of which a snapshot waits, or the cell `j` itself.
proof fn lemma_walk_meets_frontier(
    ground: Grid,
    grid: Grid,
    frontier: Frontier,
    w: Seq<(int, int)>,
    j: int,
) -> (i: int)
    requires
        search_inv(ground, grid, frontier, None),
        is_walk(ground.layout(), w),
        w.first() == ground.start_pos@,
        0 <= j < w.len(),
    ensures
        0 <= i <= j,
        grid.at(w[i]).g <= walk_cost(w.take(i + 1)),
        grid.at(w[i]).g != UNREACHED,
        i < j ==> open_at(grid, frontier, w[i]),
    decreases j,
{
    lemma_reached_bounded(ground, grid);
    if j == 0 {
        assert(w.take(1).len() == 1);
        0
    } else {
        let i = lemma_walk_meets_frontier(ground, grid, frontier, w, j - 1);
        if i < j - 1 {
            i
        } else {
            let c = w[j - 1];
            assert(ground.layout().passable(c));
            assert(settled(ground, grid, frontier, None, c));
            lemma_walk_cost_nonnegative(w.take(j));
            lemma_prefix_cost_step(w, j);
            if open_at(grid, frontier, c) {
                j - 1
            } else {
                assert(adjacent(c, w[j]));
                assert(ground.layout().passable(w[j]));
                assert(offset_code(c, w[j]) < 9);
                j
            }
        }
    }
}

/// When no snapshot waits, no walk leads from the start to the destination.
proof fn lemma_exhausted(ground: Grid, grid: Grid, frontier: Frontier, w: Seq<(int, int)>)
    requires
        search_inv(ground, grid, frontier, None),
        frontier.pending() == Map::<usize, u64>::empty(),
    ensures
        !connects(ground.layout(), w, ground.start_pos@, ground.end_pos@),
{
    if connects(ground.layout(), w, ground.start_pos@, ground.end_pos@) {
        let j = w.len() - 1;
        let i = lemma_walk_meets_frontier(ground, grid, frontier, w, j);
        lemma_walk_cost_nonnegative(w.take(i + 1));
        if i < j {
            assert(open_at(grid, frontier, w[i]));
        } else {
            assert(grid.at(grid.end_pos@).g != UNREACHED);
            assert(open_at(grid, frontier, grid.end_pos@));
        }
        assert(false);
    }
}

/// When the waiting snapshot with the lowest total cost shows the
/// destination, its cost is the best known cost of the destination, and no
/// walk from the start to the destination is cheaper.
proof fn lemma_cheapest(ground: Grid, grid: Grid, frontier: Frontier, k: int, w: Seq<(int, int)>)
    requires
        search_inv(ground, grid, frontier, None),
        frontier.waits(k),
        frontier.records@[k].pos == ground.end_pos,
        forall|j: int| #[trigger] frontier.waits(j) ==> frontier.records@[k].f <= frontier.records@[j].f,
        connects(ground.layout(), w, ground.start_pos@, ground.end_pos@),
    ensures
        frontier.records@[k].g == grid.at(ground.end_pos@).g,
        frontier.records@[k].g <= walk_cost(w),
{
    let records = frontier.records@;
    let goal = ground.end_pos@;
    lemma_dist_to_self(goal);
    assert(record_ok(ground, records, k));
    assert(ground.in_bounds(goal));
    assert(grid.at(records[k].pos@).g <= records[k].g);
    assert(open_at(grid, frontier, goal));
    let kg = choose|kg: int|
        #[trigger] frontier.waits(kg) && records[kg].pos@ == goal && records[kg].g == grid.at(goal).g;
    assert(record_ok(ground, records, kg));
    assert(records[k].g == grid.at(goal).g);
    let j = w.len() - 1;
    let i = lemma_walk_meets_frontier(ground, grid, frontier, w, j);
    if i < j {
        let ki = choose|ki: int|
            #[trigger] frontier.waits(ki) && records[ki].pos@ == w[i] && records[ki].g == grid.at(
                w[i],
            ).g;
        assert(record_ok(ground, records, ki));
        assert(ground.in_bounds(w[i]));
        assert(records[ki].h == dist_spec(w[i], goal));
        lemma_potential_rises(ground.layout(), w, goal, i);
    } else {
        assert(w.take(j + 1) =~= w);
    }
}

/// `after` is `before` with the cell `c` replaced by `node`.
pub open spec fn replaced_at(before: Grid, after: Grid, c: (int, int), node: Node) -> bool {
    &&& after.x_size == before.x_size
    &&& after.y_size == before.y_size
    &&& after.start_pos == before.start_pos
    &&& after.end_pos == before.end_pos
    &&& after.map@.len() == before.map@.len()
    &&& 0 <= c.0 < before.map@.len()
    &&& 0 <= c.1 < before.map@[c.0]@.len()
    &&& after.map@[c.0]@ == before.map@[c.0]@.update(c.1, node)
    &&& forall|r: int| 0 <= r < before.map@.len() && r != c.0 ==> after.map@[r] == before.map@[r]
}

/// No cell of `after` has a higher best known cost than it has in `before`.
pub open spec fn costs_fell(before: Grid, after: Grid) -> bool {
    forall|c: (int, int)| before.in_bounds(c) ==> (#[trigger] after.at(c)).g <= before.at(c).g
}

/// Where costs only fall, what was relaxed stays relaxed.
proof fn lemma_relaxed_persists(
    ground: Grid,
    before: Grid,
    after: Grid,
    c: (int, int),
    cost: int,
    done: int,
)
    requires
        ground.wf(),
        same_ground(ground, before),
        costs_fell(before, after),
        relaxed_upto(ground, before, c, cost, done),
    ensures
        relaxed_upto(ground, after, c, cost, done),
{
    assert forall|n: (int, int)| #[trigger]
        adjacent(c, n) && ground.layout().passable(n) && offset_code(c, n) < done implies after.at(
        n,
    ).g <= cost + step_cost(c, n) by {
        assert(before.in_bounds(n));
        assert(after.at(n).g <= before.at(n).g);
    }
}

/// A waiting snapshot still waits after another was queued, and still holds
/// the best known cost of its cell if that cell was left alone.
proof fn lemma_open_persists(
    before: Grid,
    after: Grid,
    waiting: Frontier,
    grown: Frontier,
    node: Node,
    c: (int, int),
)
    requires
        open_at(before, waiting, c),
        after.at(c).g == before.at(c).g,
        grown.records@ == waiting.records@.push(node),
        forall|k: usize| waiting.pending().contains_key(k) ==> grown.pending().contains_key(k),
    ensures
        open_at(after, grown, c),
{
    let k = choose|k: int|
        #[trigger] waiting.waits(k) && waiting.records@[k].pos@ == c && waiting.records@[k].g
            == before.at(c).g;
    assert(grown.waits(k));
    assert(grown.records@[k] == waiting.records@[k]);
}

/// The search may begin: the start has been given the cost zero and its
/// snapshot waits, alone.
proof fn lemma_begin(ground: Grid, grid: Grid, frontier: Frontier, first: Node)
    requires
        ground.wf(),
        ground.unsearched(),
        first == (Node { g: 0, f: ground.at(ground.start_pos@).h, ..ground.at(ground.start_pos@) }),
        replaced_at(ground, grid, ground.start_pos@, first),
        frontier.wf(),
        frontier.records@ == seq![first],
        frontier.pending().contains_key(0),
    ensures
        search_inv(ground, grid, frontier, None),
{
    let start = ground.start_pos@;
    assert forall|i: int, j: int| 0 <= i < grid.x_size && 0 <= j < grid.y_size implies {
        let node = #[trigger] grid.map@[i]@[j];
        &&& node.pos == ground.map@[i]@[j].pos
        &&& node.parent == ground.map@[i]@[j].parent
        &&& node.node_state == ground.map@[i]@[j].node_state
        &&& node.h == ground.map@[i]@[j].h
        &&& (node.g == UNREACHED || ((i, j) == start && node.g == 0))
    } by {
        if i != start.0 {
            assert(grid.map@[i] == ground.map@[i]);
        }
    }
    assert(same_ground(ground, grid));
    lemma_map_sum_bounds(ground.map@, reached_weight(), 0, 0, ground.y_size as int);
    lemma_map_sum_update(ground.map@, grid.map@, start.0, start.1, reached_weight());
    assert(reached_count(grid.map@) == 1);
    assert(frontier.records@[0] == first);
    assert(ground.at(start).pos@ == start);
    assert(record_ok(ground, frontier.records@, 0)) by {
        assert(ground.map@[start.0]@[start.1].node_state != NodeState::Wall);
    }
    assert(frontier.waits(0));
    assert(open_at(grid, frontier, start));
    assert forall|c: (int, int)| grid.in_bounds(c) && grid.at(c).g != UNREACHED implies #[trigger] witnessed(
        grid,
        frontier.records@,
        c,
    ) by {
        assert(grid.map@[c.0]@[c.1].g != UNREACHED);
        assert(c == start);
    }
    assert(totals_kept(ground, grid)) by {
        assert forall|i: int, j: int| 0 <= i < grid.x_size && 0 <= j < grid.y_size implies (#[trigger] grid.map@[i]@[j]).f
            == (if (i, j) == ground.start_pos@ {
            ground.map@[i]@[j].h
        } else {
            ground.map@[i]@[j].f
        }) by {
            if i != start.0 {
                assert(grid.map@[i] == ground.map@[i]);
            }
        }
    }
    assert forall|c: (int, int)| grid.in_bounds(c) implies #[trigger] settled(
        ground,
        grid,
        frontier,
        None,
        c,
    ) by {
        if c != start {
            assert(grid.map@[c.0]@[c.1].g == UNREACHED);
        }
    }
    if grid.at(grid.end_pos@).g != UNREACHED {
        assert(grid.map@[grid.end_pos@.0]@[grid.end_pos@.1].g != UNREACHED);
    }
}

/// A snapshot has been taken out of the queue: the search may expand it.
proof fn lemma_after_pop(ground: Grid, grid: Grid, before: Frontier, after: Frontier, k: int)
    requires
        search_inv(ground, grid, before, None),
        before.waits(k),
        before.records@[k].pos != ground.end_pos,
        after.wf(),
        after.records@ == before.records@,
        after.pending() == before.pending().remove(k as usize),
    ensures
        search_inv(
            ground,
            grid,
            after,
            Some(Expansion { cell: before.records@[k].pos@, cost: before.records@[k].g as int, done: 0 }),
        ),
{
    let e = Expansion { cell: before.records@[k].pos@, cost: before.records@[k].g as int, done: 0 };
    assert forall|c: (int, int)| grid.in_bounds(c) implies #[trigger] settled(
        ground,
        grid,
        after,
        Some(e),
        c,
    ) by {
        assert(settled(ground, grid, before, None, c));
        if open_at(grid, before, c) {
            let kc = choose|kc: int|
                #[trigger] before.waits(kc) && before.records@[kc].pos@ == c && before.records@[kc].g
                    == grid.at(c).g;
            if kc != k {
                assert(after.waits(kc));
            }
        }
    }
    if grid.at(grid.end_pos@).g != UNREACHED {
        let goal = grid.end_pos@;
        let kc = choose|kc: int|
            #[trigger] before.waits(kc) && before.records@[kc].pos@ == goal && before.records@[kc].g
                == grid.at(goal).g;
        assert(kc != k);
        assert(after.waits(kc));
    }
}

/// One more place round the cell being expanded is done, when the neighbour
/// there, if it is passable, costs no more than through that cell.
proof fn lemma_place_done(ground: Grid, grid: Grid, frontier: Frontier, e: Expansion)
    requires
        search_inv(ground, grid, frontier, Some(e)),
        forall|n: (int, int)|
            #[trigger] adjacent(e.cell, n) && ground.layout().passable(n) && offset_code(e.cell, n)
                == e.done ==> grid.at(n).g <= e.cost + step_cost(e.cell, n),
    ensures
        search_inv(ground, grid, frontier, Some(Expansion { done: e.done + 1, ..e })),
{
    let next = Expansion { done: e.done + 1, ..e };
    assert forall|c: (int, int)| grid.in_bounds(c) implies #[trigger] settled(
        ground,
        grid,
        frontier,
        Some(next),
        c,
    ) by {
        assert(settled(ground, grid, frontier, Some(e), c));
    }
}

/// All nine places round a cell are done: the cell is settled like any other.
proof fn lemma_expanded(ground: Grid, grid: Grid, frontier: Frontier, e: Expansion)
    requires
        search_inv(ground, grid, frontier, Some(e)),
        e.done == 9,
    ensures
        search_inv(ground, grid, frontier, None),
{
    assert forall|c: (int, int)| grid.in_bounds(c) implies #[trigger] settled(
        ground,
        grid,
        frontier,
        None,
        c,
    ) by {
        assert(settled(ground, grid, frontier, Some(e), c));
    }
}

/// A neighbour of the cell being expanded has been reached more cheaply
/// through it: its best known cost has been lowered and its new snapshot
/// queued. The place of the neighbour is done, and the sum of all best known
/// costs has fallen.
proof fn lemma_improved(
    ground: Grid,
    before: Grid,
    after: Grid,
    waiting: Frontier,
    grown: Frontier,
    e: Expansion,
    k: int,
    n: (int, int),
    node: Node,
)
    requires
        search_inv(ground, before, waiting, Some(e)),
        0 <= k < waiting.records@.len(),
        waiting.records@[k].pos@ == e.cell,
        waiting.records@[k].g == e.cost,
        adjacent(e.cell, n),
        ground.layout().passable(n),
        offset_code(e.cell, n) == e.done,
        node.g == e.cost + step_cost(e.cell, n),
        node.g < before.at(n).g,
        node == (Node { parent: Some(k as usize), g: node.g, f: node.f, ..before.at(n) }),
        node.f == node.g + node.h,
        replaced_at(before, after, n, Node { g: node.g, ..before.at(n) }),
        grown.wf(),
        grown.records@ == waiting.records@.push(node),
        grown.pending().contains_key(waiting.records@.len() as usize),
        forall|j: usize| waiting.pending().contains_key(j) ==> grown.pending().contains_key(j),
    ensures
        search_inv(ground, after, grown, Some(Expansion { done: e.done + 1, ..e })),
        total_cost_of(after.map@) < total_cost_of(before.map@),
{
    let next = Expansion { done: e.done + 1, ..e };
    let fresh = waiting.records@.len() as int;
    let old_records = waiting.records@;
    let records = grown.records@;
    assert(before.in_bounds(n));
    // The cells of the grid.
    assert forall|i: int, j: int| 0 <= i < after.x_size && 0 <= j < after.y_size implies {
        let cell = #[trigger] after.map@[i]@[j];
        &&& cell.pos == before.map@[i]@[j].pos
        &&& cell.parent == before.map@[i]@[j].parent
        &&& cell.node_state == before.map@[i]@[j].node_state
        &&& cell.h == before.map@[i]@[j].h
        &&& cell.g <= before.map@[i]@[j].g
        &&& ((i, j) != n ==> cell == before.map@[i]@[j])
    } by {
        if i != n.0 {
            assert(after.map@[i] == before.map@[i]);
        }
    }
    assert(same_ground(ground, after));
    assert(costs_fell(before, after)) by {
        assert forall|c: (int, int)| before.in_bounds(c) implies (#[trigger] after.at(c)).g
            <= before.at(c).g by {
            assert(after.map@[c.0]@[c.1].g <= before.map@[c.0]@[c.1].g);
        }
    }
    // The sums.
    lemma_map_sum_update(before.map@, after.map@, n.0, n.1, reached_weight());
    lemma_map_sum_update(
        before.map@,
        after.map@,
        n.0,
        n.1,
        cost_weight(),
    );
    lemma_reached_bounded(ground, before);
    assert(cost_cap(before) <= cost_cap(after));
    assert(node.g <= cost_cap(after)) by {
        assert(old_records[k].g <= cost_cap(before));
        if before.at(n).g == UNREACHED {
            assert(reached_count(after.map@) == reached_count(before.map@) + 1);
        } else {
            assert(before.map@[n.0]@[n.1].g <= cost_cap(before));
        }
    }
    // The snapshots.
    assert forall|j: int| 0 <= j < records.len() implies #[trigger] record_ok(ground, records, j) by {
        if j < fresh {
            assert(record_ok(ground, old_records, j));
            assert(records[j] == old_records[j]);
        } else {
            assert(records[j] == node);
            assert(records[k] == old_records[k]);
            assert(ground.map@[n.0]@[n.1].pos@ == n);
        }
    }
    assert forall|j: int| 0 <= j < records.len() implies after.at((#[trigger] records[j]).pos@).g
        <= records[j].g <= cost_cap(after) by {
        if j < fresh {
            assert(records[j] == old_records[j]);
            assert(record_ok(ground, old_records, j));
            assert(before.in_bounds(old_records[j].pos@));
            assert(after.at(old_records[j].pos@).g <= before.at(old_records[j].pos@).g);
        } else {
            assert(records[j] == node);
            assert(ground.map@[n.0]@[n.1].pos@ == n);
        }
    }
    // The start keeps the cost zero.
    assert(n != before.start_pos@);
    assert(after.at(after.start_pos@).g == 0) by {
        let s = after.start_pos@;
        assert(after.map@[s.0]@[s.1] == before.map@[s.0]@[s.1]);
    }
    // The total costs, and the snapshots that show the best known costs.
    assert(totals_kept(ground, after)) by {
        assert forall|i: int, j: int| 0 <= i < after.x_size && 0 <= j < after.y_size implies (#[trigger] after.map@[i]@[j]).f
            == (if (i, j) == ground.start_pos@ {
            ground.map@[i]@[j].h
        } else {
            ground.map@[i]@[j].f
        }) by {
            assert(after.map@[i]@[j].f == before.map@[i]@[j].f) by {
                if i != n.0 {
                    assert(after.map@[i] == before.map@[i]);
                }
            }
        }
    }
    assert forall|c: (int, int)| after.in_bounds(c) && after.at(c).g != UNREACHED implies #[trigger] witnessed(
        after,
        records,
        c,
    ) by {
        if c == n {
            assert(records[fresh] == node);
            assert(ground.map@[n.0]@[n.1].pos@ == n);
        } else {
            assert(after.map@[c.0]@[c.1] == before.map@[c.0]@[c.1]);
            assert(witnessed(before, old_records, c));
            let kc = choose|kc: int|
                0 <= kc < old_records.len() && (#[trigger] old_records[kc]).pos@ == c
                    && old_records[kc].g == before.at(c).g;
            assert(records[kc] == old_records[kc]);
        }
    }
    // Every cell is settled.
    assert(grown.waits(fresh));
    assert(ground.map@[n.0]@[n.1].pos@ == n);
    assert(records[fresh] == node);
    assert(open_at(after, grown, n));
    assert forall|c: (int, int)| after.in_bounds(c) implies #[trigger] settled(
        ground,
        after,
        grown,
        Some(next),
        c,
    ) by {
        if c != n {
            assert(settled(ground, before, waiting, Some(e), c));
            assert(after.map@[c.0]@[c.1] == before.map@[c.0]@[c.1]);
            if before.at(c).g == UNREACHED {
            } else if open_at(before, waiting, c) {
                lemma_open_persists(before, after, waiting, grown, node, c);
            } else if relaxed_upto(ground, before, c, before.at(c).g as int, 9) {
                lemma_relaxed_persists(ground, before, after, c, before.at(c).g as int, 9);
            } else {
                lemma_relaxed_persists(ground, before, after, c, e.cost, e.done);
                assert(relaxed_upto(ground, after, c, e.cost, e.done + 1));
            }
        }
    }
    // The destination.
    if after.at(after.end_pos@).g != UNREACHED {
        let goal = after.end_pos@;
        if goal != n {
            assert(after.map@[goal.0]@[goal.1] == before.map@[goal.0]@[goal.1]);
            lemma_open_persists(before, after, waiting, grown, node, goal);
        }
    }
}

/// The grid keeps the extents and the walls of the ground.
pub proof fn lemma_same_layout(ground: Grid, grid: Grid)
    requires
        ground.wf(),
        same_ground(ground, grid),
    ensures
        grid.layout() == ground.layout(),
        grid.wf(),
{
    assert(grid.layout().walls =~= ground.layout().walls);
}

/// The sum of the best known costs is not negative.
proof fn lemma_total_cost_nonnegative(ground: Grid, grid: Grid)
    requires
        ground.wf(),
        same_ground(ground, grid),
    ensures
        0 <= total_cost_of(grid.map@),
{
    lemma_map_sum_bounds(
        grid.map@,
        cost_weight(),
        0,
        UNREACHED as int,
        grid.y_size as int,
    );
    let n = grid.map@.len() * grid.y_size;
    assert(0 * n == 0) by (nonlinear_arith);
}

/// What holds of cell `i` of a path that a search found: it shows a cell of
/// the grid with its terrain and its estimate, without a link, and its cost
/// is the cost of the path from the start up to it.
pub open spec fn path_node_ok(grid: Grid, path: Seq<Node>, i: int) -> bool {
    let node = path[i];
    let w = path_walk(path, grid.end_pos@);
    &&& grid.in_bounds(node.pos@)
    &&& node.parent is None
    &&& node.node_state == grid.at(node.pos@).node_state
    &&& node.h == grid.at(node.pos@).h
    &&& node.f == node.g + node.h
    &&& node.g == walk_cost(w.take(path.len() - i))
}

/// The path, read from its far end and followed by the destination, is a walk
/// from the start to the destination; no such walk is cheaper; the best known
/// cost of the destination is the cost of the path; and each cell of the path
/// is shown as `path_node_ok` says.
pub open spec fn cheapest_path(grid: Grid, path: Seq<Node>) -> bool {
    let w = path_walk(path, grid.end_pos@);
    &&& connects(grid.layout(), w, grid.start_pos@, grid.end_pos@)
    &&& grid.at(grid.end_pos@).g == walk_cost(w)
    &&& forall|v: Seq<(int, int)>| #[trigger]
        connects(grid.layout(), v, grid.start_pos@, grid.end_pos@) ==> walk_cost(w) <= walk_cost(v)
    &&& forall|i: int| 0 <= i < path.len() ==> #[trigger] path_node_ok(grid, path, i)
}

/// Every cell that was reached holds the cost of a walk from the start to it.
pub open spec fn costs_are_walked(grid: Grid) -> bool {
    forall|c: (int, int)|
        grid.in_bounds(c) && (#[trigger] grid.at(c)).g != UNREACHED ==> exists|w: Seq<(int, int)>|
            #[trigger] connects(grid.layout(), w, grid.start_pos@, c) && walk_cost(w) == grid.at(c).g
}

/// The paths of an optional result, as a sequence.
pub open spec fn path_view(result: Option<Vec<Node>>) -> Option<Seq<Node>> {
    match result {
        None => None,
        Some(path) => Some(path@),
    }
}

/// What a search makes of a grid `before` it: the grid `after` it and the
/// path found, if one was.
///
/// The grid keeps its extents, its terrain and its estimates. The start
/// costs nothing and holds its estimate as its total cost; no other total
/// cost changes. Every cell that was reached holds the cost of a walk from
/// the start to it. There is no path exactly when no walk leads from the
/// start to the destination; a path that was found is a cheapest one.
pub open spec fn search_outcome(before: Grid, after: Grid, result: Option<Seq<Node>>) -> bool {
    &&& after.wf()
    &&& same_ground(before, after)
    &&& after.layout() == before.layout()
    &&& after.at(after.start_pos@).g == 0
    &&& totals_kept(before, after)
    &&& costs_are_walked(after)
    &&& (result is None <==> !reachable(before.layout(), before.start_pos@, before.end_pos@))
    &&& (result matches Some(path) ==> cheapest_path(after, path))
}

/// In a search, every cell that was reached holds the cost of a walk from
/// the start to it.
proof fn lemma_costs_are_walked(ground: Grid, grid: Grid, frontier: Frontier, hole: Option<Expansion>)
    requires
        search_inv(ground, grid, frontier, hole),
    ensures
        costs_are_walked(grid),
{
    lemma_same_layout(ground, grid);
    assert forall|c: (int, int)| grid.in_bounds(c) && (#[trigger] grid.at(c)).g != UNREACHED implies exists|
        w: Seq<(int, int)>,
    | #[trigger] connects(grid.layout(), w, grid.start_pos@, c) && walk_cost(w) == grid.at(c).g by {
        assert(witnessed(grid, frontier.records@, c));
        let k = choose|k: int|
            0 <= k < frontier.records@.len() && (#[trigger] frontier.records@[k]).pos@ == c
                && frontier.records@[k].g == grid.at(c).g;
        lemma_chain_is_walk(ground, frontier.records@, k);
        assert(connects(grid.layout(), chain(frontier.records@, k), grid.start_pos@, c));
    }
}

/// Cell `i` of the trail of a rightly taken snapshot is a rightly taken
/// snapshot without its link, and its chain is the chain of the first up to
/// that cell.
proof fn lemma_trail_node(ground: Grid, records: Seq<Node>, k: int, i: int) -> (m: int)
    requires
        ground.wf(),
        records_ok(ground, records),
        0 <= k < records.len(),
        0 <= i < trail(records, records[k].parent).len(),
    ensures
        0 <= m < k,
        trail(records, records[k].parent)[i] == cleared(records[m]),
        chain(records, m) == chain(records, k).take(trail(records, records[k].parent).len() - i),
    decreases k,
{
    assert(record_ok(ground, records, k));
    lemma_trail_is_chain(ground, records, k);
    let t = trail(records, records[k].parent);
    let p = records[k].parent->0 as int;
    assert(record_ok(ground, records, p));
    lemma_trail_is_chain(ground, records, p);
    let up = trail(records, records[p].parent);
    assert(t == seq![cleared(records[p])] + up);
    if i == 0 {
        assert(chain(records, k).take(t.len() as int) =~= chain(records, p));
        p
    } else {
        let m = lemma_trail_node(ground, records, p, i - 1);
        assert(t[i] == up[i - 1]);
        assert(chain(records, k).take(t.len() - i) =~= chain(records, p).take(up.len() - (i - 1)));
        m
    }
}

/// The trail of the snapshot that a search took out last, when it shows the
/// destination and no waiting snapshot had a lower total cost, is a cheapest
/// path.
proof fn lemma_found(ground: Grid, grid: Grid, frontier: Frontier, k: int, path: Seq<Node>)
    requires
        search_inv(ground, grid, frontier, None),
        frontier.waits(k),
        frontier.records@[k].pos == ground.end_pos,
        forall|j: int| #[trigger] frontier.waits(j) ==> frontier.records@[k].f <= frontier.records@[j].f,
        path == trail(frontier.records@, frontier.records@[k].parent),
    ensures
        cheapest_path(grid, path),
{
    let records = frontier.records@;
    let w = path_walk(path, grid.end_pos@);
    lemma_same_layout(ground, grid);
    lemma_chain_is_walk(ground, records, k);
    lemma_trail_is_chain(ground, records, k);
    assert(w == chain(records, k));
    lemma_cheapest(ground, grid, frontier, k, w);
    assert forall|v: Seq<(int, int)>| #[trigger]
        connects(grid.layout(), v, grid.start_pos@, grid.end_pos@) implies walk_cost(w)
        <= walk_cost(v) by {
        lemma_cheapest(ground, grid, frontier, k, v);
    }
    assert forall|i: int| 0 <= i < path.len() implies #[trigger] path_node_ok(grid, path, i) by {
        let m = lemma_trail_node(ground, records, k, i);
        assert(record_ok(ground, records, m));
        lemma_chain_is_walk(ground, records, m);
        let c = records[m].pos@;
        assert(grid.map@[c.0]@[c.1].h == ground.map@[c.0]@[c.1].h);
    }
}

impl Grid {
    /// Puts `node` in the place of the cell in row `x` and column `y`.
    fn set_cell(&mut self, x: usize, y: usize, node: Node)
        requires
            x < old(self).map@.len(),
            y < old(self).map@[x as int]@.len(),
        ensures
            replaced_at(*old(self), *final(self), (x as int, y as int), node),
    {
        self.map[x][y] = node;
    }

    /// Follows the links back from the snapshot `last_node` and lists the
    /// snapshots it comes by, each without its link: the one before
    /// `last_node` first, the one that has no link last. `last_node` itself
    /// is not listed.
    pub fn backtrack(&self, frontier: &Frontier, last_node: &Node) -> (path: Vec<Node>)
        requires
            forall|k: int| 0 <= k < frontier.records@.len() ==> linked(frontier.records@, k),
            last_node.parent matches Some(p) ==> p < frontier.records@.len(),
        ensures
            path@ == trail(frontier.records@, last_node.parent),
    {
        let mut path: Vec<Node> = Vec::new();
        let mut next = last_node.parent;
        while next.is_some()
            invariant
                forall|k: int| 0 <= k < frontier.records@.len() ==> linked(frontier.records@, k),
                next matches Some(p) ==> p < frontier.records@.len(),
                path@ + trail(frontier.records@, next) == trail(
                    frontier.records@,
                    last_node.parent,
                ),
            decreases
                    (match next {
                        None => 0int,
                        Some(p) => p + 1,
                    }),
        {
            let p = next.unwrap();
            let node = frontier.records[p];
            assert(linked(frontier.records@, p as int));
            let ghost shorter = path@;
            path.push(Node { parent: None, ..node });
            next = node.parent;
            assert(path@ + trail(frontier.records@, next) =~= shorter + (seq![cleared(node)] + trail(
                frontier.records@,
                next,
            )));
        }
        assert(path@ + trail(frontier.records@, next) =~= path@);
        path
    }

    /// Looks at one neighbour of the cell being expanded: where the neighbour
    /// is no wall and is reached more cheaply through that cell than by any
    /// path known so far, lowers its best known cost and queues a snapshot of
    /// it that links back to snapshot `k`.
    fn visit(
        &mut self,
        frontier: &mut Frontier,
        k: usize,
        curr: &Node,
        nx: usize,
        ny: usize,
        Ghost(ground): Ghost<Grid>,
        Ghost(e): Ghost<Expansion>,
    )
        requires
            search_inv(ground, *old(self), *old(frontier), Some(e)),
            k < old(frontier).records@.len(),
            old(frontier).records@[k as int] == *curr,
            e.cell == curr.pos@,
            e.cost == curr.g,
            nx < old(self).x_size,
            ny < old(self).y_size,
            adjacent(e.cell, (nx as int, ny as int)),
            offset_code(e.cell, (nx as int, ny as int)) == e.done,
        ensures
            search_inv(ground, *final(self), *final(frontier), Some(Expansion { done: e.done + 1, ..e })),
            k < final(frontier).records@.len(),
            final(frontier).records@[k as int] == *curr,
            total_cost_of(final(self).map@) < total_cost_of(
                old(self).map@,
            ) || (final(self).map@ == old(self).map@ && final(frontier).pending() == old(
                frontier,
            ).pending()),
    {
        let ghost n = (nx as int, ny as int);
        let neighbor = self.map[nx][ny];
        proof {
            assert(record_ok(ground, frontier.records@, k as int));
            assert(ground.map@[n.0]@[n.1].pos@ == n);
            assert(self.map@[n.0]@[n.1].pos == ground.map@[n.0]@[n.1].pos);
            lemma_reached_bounded(ground, *self);
            lemma_dist_of_neighbours(n, e.cell);
            lemma_extents_bounded(self.x_size, self.y_size);
        }
        if neighbor.node_state.is_wall() {
            proof {
                assert(!ground.layout().passable(n));
                assert forall|m: (int, int)| #[trigger]
                    adjacent(e.cell, m) && ground.layout().passable(m) && offset_code(e.cell, m)
                        == e.done implies self.at(m).g <= e.cost + step_cost(e.cell, m) by {
                    assert(m == n);
                }
                lemma_place_done(ground, *self, *frontier, e);
            }
            return ;
        }
        let step = dist(&neighbor.pos, &curr.pos);
        assert(step == step_cost(e.cell, n));
        let temp_g = curr.g + step;
        if temp_g < neighbor.g {
            let ghost before = *self;
            let ghost waiting = *frontier;
            let mut neighbor = neighbor;
            neighbor.g = temp_g;
            self.set_cell(nx, ny, neighbor);
            neighbor.parent = Some(k);
            proof {
                lemma_dist_bounded(n, ground.end_pos@);
            }
            let _ = neighbor.calculate_f_cost();
            let _ = frontier.push(neighbor);
            proof {
                assert(ground.layout().passable(n));
                lemma_improved(ground, before, *self, waiting, *frontier, e, k as int, n, neighbor);
            }
        } else {
            proof {
                assert forall|m: (int, int)| #[trigger]
                    adjacent(e.cell, m) && ground.layout().passable(m) && offset_code(e.cell, m)
                        == e.done implies self.at(m).g <= e.cost + step_cost(e.cell, m) by {
                    assert(m == n);
                }
                lemma_place_done(ground, *self, *frontier, e);
            }
        }
    }

    /// Expands the snapshot `k`, which the search has just taken out of the
    /// queue: looks at the eight cells round its cell, as far as they lie in
    /// the grid.
    fn expand(&mut self, frontier: &mut Frontier, k: usize, curr: &Node, Ghost(ground): Ghost<Grid>)
        requires
            search_inv(
                ground,
                *old(self),
                *old(frontier),
                Some(Expansion { cell: curr.pos@, cost: curr.g as int, done: 0 }),
            ),
            k < old(frontier).records@.len(),
            old(frontier).records@[k as int] == *curr,
        ensures
            search_inv(ground, *final(self), *final(frontier), None),
            0 <= total_cost_of(final(self).map@),
            total_cost_of(final(self).map@) < total_cost_of(
                old(self).map@,
            ) || (total_cost_of(final(self).map@) == total_cost_of(
                old(self).map@,
            ) && final(frontier).pending() == old(frontier).pending()),
    {
        let ghost cell = curr.pos@;
        let ghost cost = curr.g as int;
        let ghost total = total_cost_of(self.map@);
        let ghost pending = frontier.pending();
        proof {
            assert(record_ok(ground, frontier.records@, k as int));
        }
        let mut i: usize = 0;
        while i < 3
            invariant
                i <= 3,
                search_inv(ground, *self, *frontier, Some(Expansion { cell, cost, done: 3 * i })),
                k < frontier.records@.len(),
                frontier.records@[k as int] == *curr,
                cell == curr.pos@,
                cost == curr.g,
                ground.in_bounds(cell),
                total_cost_of(self.map@) < total || (total_cost_of(
                    self.map@,
                ) == total && frontier.pending() == pending),
            decreases 3 - i,
        {
            let mut j: usize = 0;
            while j < 3
                invariant
                    i < 3,
                    j <= 3,
                    search_inv(
                        ground,
                        *self,
                        *frontier,
                        Some(Expansion { cell, cost, done: 3 * i + j }),
                    ),
                    k < frontier.records@.len(),
                    frontier.records@[k as int] == *curr,
                    cell == curr.pos@,
                    cost == curr.g,
                    ground.in_bounds(cell),
                    total_cost_of(self.map@) < total || (total_cost_of(
                        self.map@,
                    ) == total && frontier.pending() == pending),
                decreases 3 - j,
            {
                let ghost e = Expansion { cell, cost, done: 3 * i + j };
                proof {
                    lemma_extents_bounded(ground.x_size, ground.y_size);
                }
                let outside = (i == 1 && j == 1) || (i == 0 && curr.pos.x == 0) || (j == 0
                    && curr.pos.y == 0);
                if !outside && curr.pos.x + i - 1 < self.x_size && curr.pos.y + j - 1 < self.y_size {
                    let nx = curr.pos.x + i - 1;
                    let ny = curr.pos.y + j - 1;
                    self.visit(frontier, k, curr, nx, ny, Ghost(ground), Ghost(e));
                } else {
                    proof {
                        assert forall|m: (int, int)| #[trigger]
                            adjacent(e.cell, m) && ground.layout().passable(m) && offset_code(
                                e.cell,
                                m,
                            ) == e.done implies self.at(m).g <= e.cost + step_cost(e.cell, m) by {
                            assert(m.0 - cell.0 + 1 == i && m.1 - cell.1 + 1 == j);
                        }
                        lemma_place_done(ground, *self, *frontier, e);
                    }
                }
                j = j + 1;
            }
            i = i + 1;
        }
        proof {
            lemma_expanded(ground, *self, *frontier, Expansion { cell, cost, done: 9 });
            lemma_total_cost_nonnegative(ground, *self);
        }
    }

    /// Searches for a cheapest path from the start to the destination, over
    /// the eight neighbours of each cell and round the walls.
    ///
    /// The result is `None` when no path leads to the destination. Else it is
    /// the path, from the cell before the destination back to the start, which
    /// is its last cell; where the start is the destination, the path is
    /// empty. The search leaves in each cell that it reached the best cost it
    /// found for it.
    pub fn run_a_star(&mut self) -> (result: Option<Vec<Node>>)
        requires
            old(self).wf(),
            old(self).unsearched(),
        ensures
            search_outcome(*old(self), *final(self), path_view(result)),
    {
        let ghost ground = *self;
        let mut frontier = Frontier::new();
        let sx = self.start_pos.x;
        let sy = self.start_pos.y;
        let mut first = self.map[sx][sy];
        proof {
            lemma_extents_bounded(ground.x_size, ground.y_size);
            lemma_dist_bounded(ground.start_pos@, ground.end_pos@);
        }
        first.g = 0;
        let _ = first.calculate_f_cost();
        self.set_cell(sx, sy, first);
        let _ = frontier.push(first);
        proof {
            assert(frontier.records@ =~= seq![first]);
            lemma_begin(ground, *self, frontier, first);
            lemma_total_cost_nonnegative(ground, *self);
        }
        loop
            invariant
                ground == *old(self),
                search_inv(ground, *self, frontier, None),
                0 <= total_cost_of(self.map@),
            decreases total_cost_of(self.map@), frontier.pending().dom().len(),
        {
            let ghost before = frontier;
            match frontier.pop() {
                None => {
                    proof {
                        lemma_same_layout(ground, *self);
                        lemma_costs_are_walked(ground, *self, before, None);
                        assert forall|w: Seq<(int, int)>|
                            !connects(ground.layout(), w, ground.start_pos@, ground.end_pos@) by {
                            lemma_exhausted(ground, *self, before, w);
                        }
                    }
                    return None;
                },
                Some((k, curr)) => {
                    if self.is_goal(&curr) {
                        proof {
                            assert forall|j: int| 0 <= j < frontier.records@.len() implies linked(
                                frontier.records@,
                                j,
                            ) by {
                                assert(record_ok(ground, frontier.records@, j));
                            }
                            assert(record_ok(ground, frontier.records@, k as int));
                        }
                        let path = self.backtrack(&frontier, &curr);
                        proof {
                            lemma_same_layout(ground, *self);
                            lemma_costs_are_walked(ground, *self, before, None);
                            lemma_found(ground, *self, before, k as int, path@);
                            assert(connects(
                                ground.layout(),
                                path_walk(path@, ground.end_pos@),
                                ground.start_pos@,
                                ground.end_pos@,
                            ));
                        }
                        return Some(path);
                    }
                    proof {
                        lemma_after_pop(ground, *self, before, frontier, k as int);
                    }
                    self.expand(&mut frontier, k, &curr, Ghost(ground));
                },
            }
        }
    }
}

} // verus!
