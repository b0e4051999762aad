use pathfinder::frontier::Frontier;
use pathfinder::node::{Node, Pos};
use pathfinder::priority::F;
use std::cmp::Ordering;

fn node_with(f: u64, x: usize) -> Node {
    let mut node = Node::new();
    node.f = f;
    node.pos = Pos { x, y: 0 };
    node
}

#[test]
fn lower_cost_is_the_greater_priority() {
    let cheap = F { f: 3 };
    let dear = F { f: 8 };
    assert_eq!(cheap.cmp(&dear), Ordering::Greater);
    assert_eq!(dear.cmp(&cheap), Ordering::Less);
    assert_eq!(cheap.cmp(&F { f: 3 }), Ordering::Equal);
    assert_eq!(cheap.partial_cmp(&dear), Some(Ordering::Greater));
    assert_eq!(dear.partial_cmp(&cheap), Some(Ordering::Less));
    assert!(cheap > dear);
    assert!(cheap == F { f: 3 });
    assert!(cheap != dear);
}

#[test]
fn key_falls_as_the_cost_rises() {
    assert_eq!(F { f: 0 }.key(), u64::MAX);
    assert_eq!(F { f: u64::MAX }.key(), 0);
    assert_eq!(F { f: 1_414_214 }.key(), u64::MAX - 1_414_214);
    assert!(F { f: 3 }.key() > F { f: 8 }.key());
}

#[test]
fn new_frontier_is_empty() {
    let mut frontier = Frontier::new();
    assert!(frontier.records.is_empty());
    assert!(frontier.queue.is_empty());
    assert!(frontier.pop().is_none());
    assert!(frontier.pop().is_none());
}

#[test]
fn snapshots_come_out_cheapest_first() {
    let mut frontier = Frontier::new();
    assert_eq!(frontier.push(node_with(5, 0)), 0);
    assert_eq!(frontier.push(node_with(3, 1)), 1);
    assert_eq!(frontier.push(node_with(9, 2)), 2);
    assert_eq!(frontier.push(node_with(4, 3)), 3);
    assert_eq!(frontier.queue.len(), 4);
    let order: Vec<(usize, u64)> =
        std::iter::from_fn(|| frontier.pop()).map(|(k, node)| (k, node.f)).collect();
    assert_eq!(order, vec![(1, 3), (3, 4), (0, 5), (2, 9)]);
    assert_eq!(frontier.records.len(), 4);
    assert!(frontier.pop().is_none());
}

#[test]
fn snapshots_of_one_cell_wait_side_by_side() {
    let mut frontier = Frontier::new();
    frontier.push(node_with(7, 1));
    frontier.push(node_with(2, 1));
    frontier.push(node_with(7, 1));
    assert_eq!(frontier.queue.len(), 3);
    assert_eq!(frontier.pop().map(|(k, node)| (k, node.f)), Some((1, 2)));
    let rest: Vec<u64> = std::iter::from_fn(|| frontier.pop()).map(|(_, node)| node.f).collect();
    assert_eq!(rest, vec![7, 7]);
}

#[test]
fn popped_snapshot_is_the_one_pushed() {
    let mut frontier = Frontier::new();
    let mut node = node_with(11, 4);
    node.g = 6;
    node.h = 5;
    node.parent = Some(0);
    frontier.push(node_with(20, 0));
    frontier.push(node);
    let (k, top) = frontier.pop().unwrap();
    assert_eq!(k, 1);
    assert_eq!((top.g, top.h, top.f, top.parent, top.pos), (6, 5, 11, Some(0), Pos { x: 4, y: 0 }));
    frontier.push(node_with(1, 9));
    assert_eq!(frontier.pop().map(|(k, _)| k), Some(2));
    assert_eq!(frontier.pop().map(|(k, _)| k), Some(0));
}
