//! Positions, terrain and the cells of a grid.

use vstd::prelude::*;
use vstd::std_specs::cmp::PartialEqSpec;
use vstd::std_specs::cmp::PartialEqSpecImpl;
use crate::cost::UNREACHED;

verus! {

/// The character that stands for a wall in a text map.
pub const WALL: char = '\u{2588}';

/// The character that stands for an open cell in a text map.
pub const OPEN: char = ' ';

/// The character that stands for the start in a text map.
pub const START: char = 'O';

/// The character that stands for the destination in a text map.
pub const DESTINATION: char = 'X';

/// What stands on a cell.
#[derive(Debug, Clone, Copy, PartialEq, Eq, Structural)]
pub enum NodeState {
    Wall,
    Start,
    Destination,
    Open,
}

impl NodeState {
    /// The terrain that a character of a text map stands for: every
    /// character but the wall, the start and the destination is open ground.
    pub open spec fn of_symbol(c: char) -> NodeState {
        if c == WALL {
            NodeState::Wall
        } else if c == DESTINATION {
            NodeState::Destination
        } else if c == START {
            NodeState::Start
        } else {
            NodeState::Open
        }
    }

    /// The character that a text map uses for this terrain.
    pub open spec fn symbol_spec(self) -> char {
        match self {
            NodeState::Wall => WALL,
            NodeState::Start => START,
            NodeState::Destination => DESTINATION,
            NodeState::Open => OPEN,
        }
    }

    /// Whether a path may pass over this terrain.
    pub open spec fn passable(self) -> bool {
        self != NodeState::Wall
    }

    /// Reads one character of a text map.
    pub fn from_symbol(c: char) -> (s: NodeState)
        ensures
            s == Self::of_symbol(c),
    {
        if c == WALL {
            NodeState::Wall
        } else if c == DESTINATION {
            NodeState::Destination
        } else if c == START {
            NodeState::Start
        } else {
            NodeState::Open
        }
    }

    /// Writes this terrain as one character of a text map.
    pub fn symbol(self) -> (c: char)
        ensures
            c == self.symbol_spec(),
    {
        match self {
            NodeState::Wall => WALL,
            NodeState::Start => START,
            NodeState::Destination => DESTINATION,
            NodeState::Open => OPEN,
        }
    }

    /// Whether this terrain is a wall.
    pub fn is_wall(self) -> (b: bool)
        ensures
            b == !self.passable(),
    {
        match self {
            NodeState::Wall => true,
            _ => false,
        }
    }
}

/// Reading the character written for a terrain gives that terrain back.
pub proof fn lemma_symbol_round_trip(s: NodeState)
    ensures
        NodeState::of_symbol(s.symbol_spec()) == s,
{
}

/// Writing the terrain read from one of the four characters of a text map
/// gives that character back; any other character is written as open ground.
pub proof fn lemma_symbol_canonical(c: char)
    ensures
        (c == WALL || c == OPEN || c == START || c == DESTINATION)
            ==> NodeState::of_symbol(c).symbol_spec() == c,
        !(c == WALL || c == OPEN || c == START || c == DESTINATION)
            ==> NodeState::of_symbol(c).symbol_spec() == OPEN,
{
}

/// A coordinate pair of a grid: `x` is the row, `y` the column.
#[derive(Debug, Clone, Copy, PartialEq, Eq, Structural, Hash)]
pub struct Pos {
    pub x: usize,
    pub y: usize,
}

impl View for Pos {
    type V = (int, int);

    open spec fn view(&self) -> (int, int) {
        (self.x as int, self.y as int)
    }
}

/// One cell: where it lies, what stands on it, and what the search knows of it.
///
/// `g` is the best known cost from the start, `h` the estimate of the cost
/// that remains to the destination, `f` their sum. `parent`, in a snapshot
/// that a search took, is the number of the snapshot of the cell before it on
/// the best path known when it was taken.
#[derive(Debug, Clone, Copy)]
pub struct Node {
    pub pos: Pos,
    pub parent: Option<usize>,
    pub node_state: NodeState,
    pub g: u64,
    pub h: u64,
    pub f: u64,
}

/// The sum of two costs, where the cost of an unreached cell absorbs.
pub open spec fn total_cost(g: u64, h: u64) -> u64 {
    if g + h > UNREACHED {
        UNREACHED
    } else {
        (g + h) as u64
    }
}

/// The number that stands for a position when cells are hashed.
pub open spec fn hash_of(pos: Pos) -> usize {
    let first = vstd::wrapping::usize_specs::wrapping_mul(
        31,
        vstd::wrapping::usize_specs::wrapping_add(17, pos.x),
    );
    vstd::wrapping::usize_specs::wrapping_mul(
        31,
        vstd::wrapping::usize_specs::wrapping_add(first, pos.y),
    )
}

impl Node {
    /// An open cell at the origin that nothing has reached or estimated yet.
    pub fn new() -> (node: Node)
        ensures
            node.pos == (Pos { x: 0, y: 0 }),
            node.parent is None,
            node.node_state == NodeState::Open,
            node.g == UNREACHED,
            node.h == UNREACHED,
            node.f == UNREACHED,
    {
        Node {
            pos: Pos { x: 0, y: 0 },
            parent: None,
            node_state: NodeState::Open,
            g: UNREACHED,
            h: UNREACHED,
            f: UNREACHED,
        }
    }

    /// Recomputes the total cost from `g` and `h`, and returns it.
    pub fn calculate_f_cost(&mut self) -> (f: u64)
        ensures
            f == total_cost(old(self).g, old(self).h),
            *final(self) == (Node { f, ..*old(self) }),
    {
        self.f = self.h.saturating_add(self.g);
        self.f
    }

    /// The hash of a cell: a function of its position alone, as its equality is.
    pub fn hash(&self) -> (code: usize)
        ensures
            code == hash_of(self.pos),
    {
        let first = 31usize.wrapping_mul(17usize.wrapping_add(self.pos.x));
        31usize.wrapping_mul(first.wrapping_add(self.pos.y))
    }
}

impl PartialEq for Node {
    /// Two cells are equal when they lie at the same position.
    fn eq(&self, other: &Node) -> (r: bool) {
        self.pos.x == other.pos.x && self.pos.y == other.pos.y
    }
}

impl Eq for Node {}

impl PartialEqSpecImpl for Node {
    open spec fn obeys_eq_spec() -> bool {
        true
    }

    open spec fn eq_spec(&self, other: &Node) -> bool {
        self.pos == other.pos
    }
}

/// Cells that are equal have the same hash.
pub proof fn lemma_equal_nodes_hash_alike(a: Node, b: Node)
    requires
        PartialEqSpec::eq_spec(&a, &b),
    ensures
        hash_of(a.pos) == hash_of(b.pos),
{
}

} // verus!
