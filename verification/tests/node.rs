use pathfinder::cost::UNREACHED;
use pathfinder::node::{Node, NodeState, Pos, DESTINATION, OPEN, START, WALL};

#[test]
fn new_node_is_open_and_unreached() {
    let node = Node::new();
    assert_eq!(node.pos, Pos { x: 0, y: 0 });
    assert!(node.parent.is_none());
    assert_eq!(node.node_state, NodeState::Open);
    assert_eq!(node.g, UNREACHED);
    assert_eq!(node.h, UNREACHED);
    assert_eq!(node.f, UNREACHED);
}

#[test]
fn total_cost_is_the_sum_of_cost_and_estimate() {
    let mut node = Node::new();
    node.g = 3_000_000;
    node.h = 1_414_214;
    assert_eq!(node.calculate_f_cost(), 4_414_214);
    assert_eq!(node.f, 4_414_214);
    assert_eq!((node.g, node.h), (3_000_000, 1_414_214));
}

#[test]
fn total_cost_of_an_unreached_cell_is_unreached() {
    let mut node = Node::new();
    node.h = 5;
    assert_eq!(node.calculate_f_cost(), UNREACHED);
    node.g = UNREACHED - 5;
    assert_eq!(node.calculate_f_cost(), UNREACHED);
    node.g = UNREACHED - 6;
    assert_eq!(node.calculate_f_cost(), UNREACHED - 1);
}

#[test]
fn nodes_are_equal_when_their_positions_are() {
    let mut a = Node::new();
    let mut b = Node::new();
    a.pos = Pos { x: 2, y: 3 };
    b.pos = Pos { x: 2, y: 3 };
    b.g = 7;
    b.node_state = NodeState::Wall;
    b.parent = Some(4);
    assert!(a == b);
    assert_eq!(a.hash(), b.hash());
    b.pos = Pos { x: 3, y: 2 };
    assert!(a != b);
    b.pos = Pos { x: 2, y: 4 };
    assert!(a != b);
}

#[test]
fn hash_is_computed_from_the_position() {
    let mut node = Node::new();
    assert_eq!(node.hash(), 31 * (31 * 17));
    node.pos = Pos { x: 2, y: 3 };
    assert_eq!(node.hash(), 31 * (31 * (17 + 2) + 3));
    node.pos = Pos { x: usize::MAX, y: 0 };
    assert_eq!(node.hash(), 31usize.wrapping_mul(31 * 16));
}

#[test]
fn symbols_stand_for_terrain() {
    assert_eq!((WALL, OPEN, START, DESTINATION), ('\u{2588}', ' ', 'O', 'X'));
    assert_eq!(NodeState::from_symbol('\u{2588}'), NodeState::Wall);
    assert_eq!(NodeState::from_symbol(' '), NodeState::Open);
    assert_eq!(NodeState::from_symbol('O'), NodeState::Start);
    assert_eq!(NodeState::from_symbol('X'), NodeState::Destination);
    assert_eq!(NodeState::from_symbol('x'), NodeState::Open);
    assert_eq!(NodeState::from_symbol('#'), NodeState::Open);
    for state in [NodeState::Wall, NodeState::Open, NodeState::Start, NodeState::Destination] {
        assert_eq!(NodeState::from_symbol(state.symbol()), state);
        assert_eq!(state.is_wall(), state == NodeState::Wall);
    }
    for c in ['\u{2588}', ' ', 'O', 'X'] {
        assert_eq!(NodeState::from_symbol(c).symbol(), c);
    }
    assert_eq!(NodeState::from_symbol('?').symbol(), ' ');
}
