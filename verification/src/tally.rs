//! Sums over the cells of a grid.

use vstd::prelude::*;
use crate::cost::UNREACHED;
use crate::node::Node;

verus! {

/// The sum of `weight` over the cells of a row.
pub open spec fn row_sum(row: Seq<Node>, weight: spec_fn(Node) -> int) -> int
    decreases row.len(),
{
    if row.len() == 0 {
        0
    } else {
        row_sum(row.drop_last(), weight) + weight(row.last())
    }
}

/// The sum of `weight` over the cells of all rows.
pub open spec fn map_sum(map: Seq<Vec<Node>>, weight: spec_fn(Node) -> int) -> int
    decreases map.len(),
{
    if map.len() == 0 {
        0
    } else {
        map_sum(map.drop_last(), weight) + row_sum(map.last()@, weight)
    }
}

/// The weight of a cell in the sum of the best known costs.
pub open spec fn cost_weight() -> spec_fn(Node) -> int {
    |node: Node| node.g as int
}

/// The weight of a cell in the number of cells reached.
pub open spec fn reached_weight() -> spec_fn(Node) -> int {
    |node: Node|
        if node.g == UNREACHED {
            0int
        } else {
            1int
        }
}

/// The sum of the best known costs of all cells.
pub open spec fn total_cost_of(map: Seq<Vec<Node>>) -> int {
    map_sum(map, cost_weight())
}

/// The number of cells that a path has reached.
pub open spec fn reached_count(map: Seq<Vec<Node>>) -> int {
    map_sum(map, reached_weight())
}

/// Replacing one cell of a row changes the sum by the difference of the two
/// weights.
pub proof fn lemma_row_sum_update(row: Seq<Node>, j: int, node: Node, weight: spec_fn(Node) -> int)
    requires
        0 <= j < row.len(),
    ensures
        row_sum(row.update(j, node), weight) == row_sum(row, weight) - weight(row[j]) + weight(node),
    decreases row.len(),
{
    let changed = row.update(j, node);
    if j == row.len() - 1 {
        assert(changed.drop_last() =~= row.drop_last());
    } else {
        lemma_row_sum_update(row.drop_last(), j, node, weight);
        assert(changed.drop_last() =~= row.drop_last().update(j, node));
    }
}

/// Replacing one cell of one row changes the sum over all rows by the
/// difference of the two weights.
pub proof fn lemma_map_sum_update(
    before: Seq<Vec<Node>>,
    after: Seq<Vec<Node>>,
    i: int,
    j: int,
    weight: spec_fn(Node) -> int,
)
    requires
        before.len() == after.len(),
        0 <= i < before.len(),
        0 <= j < before[i]@.len(),
        after[i]@ == before[i]@.update(j, after[i]@[j]),
        forall|r: int| 0 <= r < before.len() && r != i ==> after[r]@ == before[r]@,
    ensures
        map_sum(after, weight) == map_sum(before, weight) - weight(before[i]@[j]) + weight(
            after[i]@[j],
        ),
    decreases before.len(),
{
    if i == before.len() - 1 {
        lemma_map_sum_same(before.drop_last(), after.drop_last(), weight);
        lemma_row_sum_update(before[i]@, j, after[i]@[j], weight);
    } else {
        lemma_map_sum_update(before.drop_last(), after.drop_last(), i, j, weight);
        assert(after.last()@ == before.last()@);
    }
}

/// Rows with the same cells have the same sum.
pub proof fn lemma_map_sum_same(before: Seq<Vec<Node>>, after: Seq<Vec<Node>>, weight: spec_fn(Node) -> int)
    requires
        before.len() == after.len(),
        forall|r: int| 0 <= r < before.len() ==> after[r]@ == before[r]@,
    ensures
        map_sum(after, weight) == map_sum(before, weight),
    decreases before.len(),
{
    if before.len() > 0 {
        lemma_map_sum_same(before.drop_last(), after.drop_last(), weight);
        assert(after.last()@ == before.last()@);
    }
}

/// Where every weight lies between `lo` and `hi`, the sum over a row lies
/// between `lo` and `hi` times its length.
pub proof fn lemma_row_sum_bounds(row: Seq<Node>, weight: spec_fn(Node) -> int, lo: int, hi: int)
    requires
        forall|j: int| 0 <= j < row.len() ==> lo <= weight(#[trigger] row[j]) <= hi,
    ensures
        lo * row.len() <= row_sum(row, weight) <= hi * row.len(),
    decreases row.len(),
{
    if row.len() > 0 {
        let rest = row.drop_last();
        assert forall|j: int| 0 <= j < rest.len() implies lo <= weight(#[trigger] rest[j]) <= hi by {
            assert(rest[j] == row[j]);
        }
        lemma_row_sum_bounds(rest, weight, lo, hi);
        assert(lo <= weight(row[row.len() - 1]) <= hi);
        assert(lo * row.len() == lo * rest.len() + lo) by (nonlinear_arith)
            requires
                row.len() == rest.len() + 1,
        ;
        assert(hi * row.len() == hi * rest.len() + hi) by (nonlinear_arith)
            requires
                row.len() == rest.len() + 1,
        ;
    } else {
        assert(lo * row.len() == 0 && hi * row.len() == 0) by (nonlinear_arith)
            requires
                row.len() == 0,
        ;
    }
}

/// Where every weight lies between `lo` and `hi` and every row has `width`
/// cells, the sum lies between `lo` and `hi` times the number of cells.
pub proof fn lemma_map_sum_bounds(
    map: Seq<Vec<Node>>,
    weight: spec_fn(Node) -> int,
    lo: int,
    hi: int,
    width: int,
)
    requires
        0 <= width,
        forall|i: int| 0 <= i < map.len() ==> (#[trigger] map[i])@.len() == width,
        forall|i: int, j: int|
            0 <= i < map.len() && 0 <= j < width ==> lo <= weight(#[trigger] map[i]@[j]) <= hi,
    ensures
        lo * (map.len() * width) <= map_sum(map, weight) <= hi * (map.len() * width),
    decreases map.len(),
{
    if map.len() > 0 {
        let rest = map.drop_last();
        assert forall|i: int| 0 <= i < rest.len() implies (#[trigger] rest[i])@.len() == width by {
            assert(rest[i] == map[i]);
        }
        assert forall|i: int, j: int| 0 <= i < rest.len() && 0 <= j < width implies lo <= weight(
            #[trigger] rest[i]@[j],
        ) <= hi by {
            assert(rest[i] == map[i]);
        }
        lemma_map_sum_bounds(rest, weight, lo, hi, width);
        let row = map.last()@;
        assert(map[map.len() - 1]@.len() == width);
        assert forall|j: int| 0 <= j < row.len() implies lo <= weight(#[trigger] row[j]) <= hi by {
            assert(row[j] == map[map.len() - 1]@[j]);
        }
        lemma_row_sum_bounds(row, weight, lo, hi);
        assert(lo * (map.len() * width) == lo * (rest.len() * width) + lo * width
            && hi * (map.len() * width) == hi * (rest.len() * width) + hi * width)
            by (nonlinear_arith)
            requires
                map.len() == rest.len() + 1,
        ;
    } else {
        assert(lo * (map.len() * width) == 0 && hi * (map.len() * width) == 0)
            by (nonlinear_arith)
            requires
                map.len() == 0,
        ;
    }
}

} // verus!
