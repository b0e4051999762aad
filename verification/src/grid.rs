//! The grid: its cells, where the search starts and where it is to arrive.

use vstd::prelude::*;
use rand::rngs::StdRng;
use crate::cost::{dist, dist_spec, lemma_dist_bounded, MAX_CELLS, UNREACHED};
use crate::node::{Node, NodeState, Pos};
use crate::random::{draw_below, draw_ratio};
use crate::node::{DESTINATION, START};
use crate::text::{
    check_fits, find_symbol, fits, occurs, occurs_twice, rows_of, symbol_at, table_of,
    terrain_from_text, text_of,
};
use crate::walk::Layout;

verus! {

/// Why a grid could not be built.
#[derive(Debug, Clone, Copy, PartialEq, Eq, Structural)]
pub enum GridError {
    /// The grid would have no rows or no columns.
    EmptyGrid,
    /// The grid would have more cells than `MAX_CELLS`.
    TooLarge,
    /// What was given does not fit the extents, or a position lies outside them.
    OutOfBounds,
    /// The text map holds no start.
    MissingStart,
    /// The text map holds more than one start.
    DuplicateStart,
    /// The text map holds no destination.
    MissingDestination,
    /// The text map holds more than one destination.
    DuplicateDestination,
}

/// A grid of `x_size` rows and `y_size` columns; the cell in row `x` and
/// column `y` is `map[x][y]`.
#[derive(Debug)]
pub struct Grid {
    pub map: Vec<Vec<Node>>,
    pub start_pos: Pos,
    pub end_pos: Pos,
    pub x_size: usize,
    pub y_size: usize,
}

/// The terrain of the cell `c` of a grid built from walls, a start and a
/// destination: where both fall on one cell, it is the destination.
pub open spec fn terrain_of(walls: Seq<Seq<bool>>, start: (int, int), end: (int, int), c: (int, int)) -> NodeState {
    if c == end {
        NodeState::Destination
    } else if c == start {
        NodeState::Start
    } else if walls[c.0][c.1] {
        NodeState::Wall
    } else {
        NodeState::Open
    }
}

/// The rows of a table of walls, each as a sequence.
pub open spec fn wall_rows(walls: Seq<Vec<bool>>) -> Seq<Seq<bool>> {
    Seq::new(walls.len(), |i: int| walls[i]@)
}

/// The extents are those of a grid that can be built.
pub open spec fn valid_extents(x_size: usize, y_size: usize) -> bool {
    1 <= x_size && 1 <= y_size && x_size * y_size <= MAX_CELLS
}

/// Neither extent of a grid that can be built is above `MAX_CELLS`.
pub proof fn lemma_extents_bounded(x_size: usize, y_size: usize)
    requires
        valid_extents(x_size, y_size),
    ensures
        x_size <= MAX_CELLS,
        y_size <= MAX_CELLS,
{
    assert(x_size <= MAX_CELLS && y_size <= MAX_CELLS) by (nonlinear_arith)
        requires
            1 <= x_size,
            1 <= y_size,
            x_size * y_size <= MAX_CELLS,
    ;
}

impl Grid {
    /// The cell lies inside the grid.
    pub open spec fn in_bounds(&self, c: (int, int)) -> bool {
        0 <= c.0 < self.x_size && 0 <= c.1 < self.y_size
    }

    /// The cell in row `c.0` and column `c.1`.
    pub open spec fn at(&self, c: (int, int)) -> Node {
        self.map@[c.0]@[c.1]
    }

    /// The grid has the rows and columns that its extents say, each cell knows
    /// where it lies, the destination stands on `end_pos` and nowhere else,
    /// and the start on `start_pos` and nowhere else (on no cell at all where
    /// it coincides with the destination).
    pub open spec fn shaped(&self) -> bool {
        &&& valid_extents(self.x_size, self.y_size)
        &&& self.map@.len() == self.x_size
        &&& forall|i: int| 0 <= i < self.x_size ==> (#[trigger] self.map@[i])@.len() == self.y_size
        &&& self.in_bounds(self.start_pos@)
        &&& self.in_bounds(self.end_pos@)
        &&& forall|i: int, j: int|
            0 <= i < self.x_size && 0 <= j < self.y_size ==> {
                let node = #[trigger] self.map@[i]@[j];
                &&& node.pos@ == (i, j)
                &&& node.parent is None
                &&& (node.node_state == NodeState::Destination <==> (i, j) == self.end_pos@)
                &&& (node.node_state == NodeState::Start <==> ((i, j) == self.start_pos@ && (i, j)
                    != self.end_pos@))
            }
    }

    /// The grid is shaped, and every cell holds its straight-line distance to
    /// the destination as its estimate.
    pub open spec fn wf(&self) -> bool {
        &&& self.shaped()
        &&& forall|i: int, j: int|
            0 <= i < self.x_size && 0 <= j < self.y_size ==> (#[trigger] self.map@[i]@[j]).h
                == dist_spec((i, j), self.end_pos@)
    }

    /// No search has run on the grid: no cell has been reached.
    pub open spec fn unsearched(&self) -> bool {
        forall|i: int, j: int|
            0 <= i < self.x_size && 0 <= j < self.y_size ==> {
                &&& (#[trigger] self.map@[i]@[j]).g == UNREACHED
                &&& self.map@[i]@[j].f == UNREACHED
            }
    }

    /// The extents of the grid and where its walls stand.
    pub open spec fn layout(&self) -> Layout {
        Layout {
            x_size: self.x_size as int,
            y_size: self.y_size as int,
            walls: Set::new(
                |c: (int, int)| self.in_bounds(c) && self.at(c).node_state == NodeState::Wall,
            ),
        }
    }

    /// The terrain of every cell.
    pub open spec fn terrain(&self) -> Seq<Seq<NodeState>> {
        Seq::new(
            self.x_size as nat,
            |i: int| Seq::new(self.y_size as nat, |j: int| self.map@[i]@[j].node_state),
        )
    }

    /// Whether a cell is the destination.
    pub fn is_goal(&self, other: &Node) -> (b: bool)
        ensures
            b == (self.end_pos == other.pos),
    {
        self.end_pos == other.pos
    }

    /// Gives every cell its estimate: the straight-line distance from it to
    /// the destination.
    pub fn calculate_h_costs(&mut self)
        requires
            old(self).shaped(),
        ensures
            final(self).wf(),
            final(self).x_size == old(self).x_size,
            final(self).y_size == old(self).y_size,
            final(self).start_pos == old(self).start_pos,
            final(self).end_pos == old(self).end_pos,
            forall|i: int, j: int|
                0 <= i < old(self).x_size && 0 <= j < old(self).y_size ==> #[trigger] final(self).map@[i]@[j] == (Node {
                    h: dist_spec((i, j), old(self).end_pos@) as u64,
                    ..old(self).map@[i]@[j]
                }),
    {
        let x_size = self.x_size;
        let y_size = self.y_size;
        let end_pos = self.end_pos;
        proof {
            lemma_extents_bounded(x_size, y_size);
        }
        let mut i: usize = 0;
        while i < x_size
            invariant
                i <= x_size,
                x_size == old(self).x_size,
                y_size == old(self).y_size,
                end_pos == old(self).end_pos,
                x_size <= MAX_CELLS,
                y_size <= MAX_CELLS,
                old(self).shaped(),
                self.x_size == x_size,
                self.y_size == y_size,
                self.start_pos == old(self).start_pos,
                self.end_pos == end_pos,
                self.map@.len() == x_size,
                forall|r: int| 0 <= r < x_size ==> (#[trigger] self.map@[r])@.len() == y_size,
                forall|r: int, c: int|
                    0 <= r < i && 0 <= c < y_size ==> #[trigger] self.map@[r]@[c] == (Node {
                        h: dist_spec((r, c), end_pos@) as u64,
                        ..old(self).map@[r]@[c]
                    }),
                forall|r: int, c: int|
                    i <= r < x_size && 0 <= c < y_size ==> #[trigger] self.map@[r]@[c] == old(self).map@[r]@[c],
            decreases x_size - i,
        {
            let mut j: usize = 0;
            while j < y_size
                invariant
                    i < x_size,
                    j <= y_size,
                    x_size == old(self).x_size,
                    y_size == old(self).y_size,
                    end_pos == old(self).end_pos,
                    x_size <= MAX_CELLS,
                    y_size <= MAX_CELLS,
                    old(self).shaped(),
                    self.x_size == x_size,
                    self.y_size == y_size,
                    self.start_pos == old(self).start_pos,
                    self.end_pos == end_pos,
                    self.map@.len() == x_size,
                    forall|r: int| 0 <= r < x_size ==> (#[trigger] self.map@[r])@.len() == y_size,
                    forall|r: int, c: int|
                        0 <= r < i && 0 <= c < y_size ==> #[trigger] self.map@[r]@[c] == (Node {
                            h: dist_spec((r, c), end_pos@) as u64,
                            ..old(self).map@[r]@[c]
                        }),
                    forall|c: int|
                        0 <= c < j ==> #[trigger] self.map@[i as int]@[c] == (Node {
                            h: dist_spec((i as int, c), end_pos@) as u64,
                            ..old(self).map@[i as int]@[c]
                        }),
                    forall|c: int|
                        j <= c < y_size ==> #[trigger] self.map@[i as int]@[c] == old(self).map@[i as int]@[c],
                    forall|r: int, c: int|
                        i < r < x_size && 0 <= c < y_size ==> #[trigger] self.map@[r]@[c] == old(self).map@[r]@[c],
                decreases y_size - j,
            {
                let pos = self.map[i][j].pos;
                assert(pos@ == (i as int, j as int)) by {
                    assert(old(self).map@[i as int]@[j as int].pos@ == (i as int, j as int));
                }
                proof {
                    lemma_dist_bounded((i as int, j as int), end_pos@);
                }
                let h = dist(&pos, &end_pos);
                self.map[i][j].h = h;
                j = j + 1;
            }
            i = i + 1;
        }
        proof {
            assert forall|i: int, j: int| 0 <= i < self.x_size && 0 <= j < self.y_size implies {
                let node = #[trigger] self.map@[i]@[j];
                &&& node.pos@ == (i, j)
                &&& node.parent is None
                &&& (node.node_state == NodeState::Destination <==> (i, j) == self.end_pos@)
                &&& (node.node_state == NodeState::Start <==> ((i, j) == self.start_pos@ && (i, j)
                    != self.end_pos@))
                &&& node.h == dist_spec((i, j), self.end_pos@)
            } by {
                lemma_dist_bounded((i, j), end_pos@);
                let before = old(self).map@[i]@[j];
                assert(before.pos@ == (i, j));
            }
        }
    }
}

/// What is wrong with the extents, if anything is.
pub open spec fn extents_error(x_size: usize, y_size: usize) -> Option<GridError> {
    if x_size == 0 || y_size == 0 {
        Some(GridError::EmptyGrid)
    } else if x_size * y_size > MAX_CELLS {
        Some(GridError::TooLarge)
    } else {
        None
    }
}

/// The table of walls has `x_size` rows of `y_size` cells, and both positions
/// lie among them.
pub open spec fn walls_fit(
    walls: Seq<Seq<bool>>,
    start_pos: Pos,
    end_pos: Pos,
    x_size: usize,
    y_size: usize,
) -> bool {
    &&& walls.len() == x_size
    &&& forall|i: int| 0 <= i < x_size ==> (#[trigger] walls[i]).len() == y_size
    &&& start_pos.x < x_size
    &&& start_pos.y < y_size
    &&& end_pos.x < x_size
    &&& end_pos.y < y_size
}

/// Why no grid can be built from a table of walls and two positions, if none
/// can.
pub open spec fn walls_error(
    walls: Seq<Seq<bool>>,
    start_pos: Pos,
    end_pos: Pos,
    x_size: usize,
    y_size: usize,
) -> Option<GridError> {
    if extents_error(x_size, y_size) is Some {
        extents_error(x_size, y_size)
    } else if !walls_fit(walls, start_pos, end_pos, x_size, y_size) {
        Some(GridError::OutOfBounds)
    } else {
        None
    }
}

/// Why no grid can be built from a text, if none can.
pub open spec fn text_error(text: Seq<Seq<char>>, x_size: usize, y_size: usize) -> Option<GridError> {
    if extents_error(x_size, y_size) is Some {
        extents_error(x_size, y_size)
    } else if !fits(text, x_size, y_size) {
        Some(GridError::OutOfBounds)
    } else if !occurs(text, START) {
        Some(GridError::MissingStart)
    } else if occurs_twice(text, START) {
        Some(GridError::DuplicateStart)
    } else if !occurs(text, DESTINATION) {
        Some(GridError::MissingDestination)
    } else if occurs_twice(text, DESTINATION) {
        Some(GridError::DuplicateDestination)
    } else {
        None
    }
}

/// The cell `c` of a grid on which no search has run.
pub open spec fn fresh_node(c: (int, int), state: NodeState, end: (int, int)) -> Node {
    Node {
        pos: Pos { x: c.0 as usize, y: c.1 as usize },
        parent: None,
        node_state: state,
        g: UNREACHED,
        h: dist_spec(c, end) as u64,
        f: UNREACHED,
    }
}

/// Checks the extents of a grid.
pub fn check_extents(x_size: usize, y_size: usize) -> (error: Option<GridError>)
    ensures
        error == extents_error(x_size, y_size),
{
    if x_size == 0 || y_size == 0 {
        return Some(GridError::EmptyGrid);
    }
    match x_size.checked_mul(y_size) {
        None => Some(GridError::TooLarge),
        Some(cells) => if cells > MAX_CELLS {
            Some(GridError::TooLarge)
        } else {
            None
        },
    }
}

impl Grid {
    /// Builds the grid whose cells have the terrain given.
    fn from_terrain(
        terrain: &Vec<Vec<NodeState>>,
        start_pos: Pos,
        end_pos: Pos,
        x_size: usize,
        y_size: usize,
    ) -> (grid: Grid)
        requires
            valid_extents(x_size, y_size),
            terrain@.len() == x_size,
            forall|i: int| 0 <= i < x_size ==> (#[trigger] terrain@[i])@.len() == y_size,
            start_pos.x < x_size,
            start_pos.y < y_size,
            end_pos.x < x_size,
            end_pos.y < y_size,
            forall|i: int, j: int|
                0 <= i < x_size && 0 <= j < y_size ==> {
                    let state = #[trigger] terrain@[i]@[j];
                    &&& (state == NodeState::Destination <==> (i, j) == end_pos@)
                    &&& (state == NodeState::Start <==> ((i, j) == start_pos@ && (i, j) != end_pos@))
                },
        ensures
            grid.wf(),
            grid.unsearched(),
            grid.x_size == x_size,
            grid.y_size == y_size,
            grid.start_pos == start_pos,
            grid.end_pos == end_pos,
            forall|i: int, j: int|
                0 <= i < x_size && 0 <= j < y_size ==> #[trigger] grid.map@[i]@[j] == fresh_node(
                    (i, j),
                    terrain@[i]@[j],
                    end_pos@,
                ),
    {
        let mut map: Vec<Vec<Node>> = Vec::new();
        let mut i: usize = 0;
        while i < x_size
            invariant
                i <= x_size,
                terrain@.len() == x_size,
                forall|r: int| 0 <= r < x_size ==> (#[trigger] terrain@[r])@.len() == y_size,
                map@.len() == i,
                forall|r: int| 0 <= r < i ==> (#[trigger] map@[r])@.len() == y_size,
                forall|r: int, c: int|
                    0 <= r < i && 0 <= c < y_size ==> #[trigger] map@[r]@[c] == (Node {
                        h: UNREACHED,
                        ..fresh_node((r, c), terrain@[r]@[c], end_pos@)
                    }),
            decreases x_size - i,
        {
            let mut row: Vec<Node> = Vec::new();
            let mut j: usize = 0;
            while j < y_size
                invariant
                    i < x_size,
                    j <= y_size,
                    terrain@.len() == x_size,
                    terrain@[i as int]@.len() == y_size,
                    row@.len() == j,
                    forall|c: int|
                        0 <= c < j ==> #[trigger] row@[c] == (Node {
                            h: UNREACHED,
                            ..fresh_node((i as int, c), terrain@[i as int]@[c], end_pos@)
                        }),
                decreases y_size - j,
            {
                let mut node = Node::new();
                node.pos = Pos { x: i, y: j };
                node.node_state = terrain[i][j];
                row.push(node);
                j = j + 1;
            }
            map.push(row);
            i = i + 1;
        }
        let mut grid = Grid { map, start_pos, end_pos, x_size, y_size };
        assert(grid.shaped());
        grid.calculate_h_costs();
        grid
    }

    /// Builds the grid of `x_size` rows and `y_size` columns that has a wall
    /// wherever `walls` says so, but for the start and the destination, which
    /// are put on `start_pos` and `end_pos` whatever `walls` says of them.
    /// Where the two positions are the same, the cell is the destination.
    pub fn from_walls(
        walls: &Vec<Vec<bool>>,
        start_pos: Pos,
        end_pos: Pos,
        x_size: usize,
        y_size: usize,
    ) -> (result: Result<Grid, GridError>)
        ensures
            result matches Err(error) ==> walls_error(
                wall_rows(walls@),
                start_pos,
                end_pos,
                x_size,
                y_size,
            ) == Some(error),
            result matches Ok(grid) ==> {
                &&& walls_error(wall_rows(walls@), start_pos, end_pos, x_size, y_size) is None
                &&& grid.wf()
                &&& grid.unsearched()
                &&& grid.x_size == x_size
                &&& grid.y_size == y_size
                &&& grid.start_pos == start_pos
                &&& grid.end_pos == end_pos
                &&& forall|i: int, j: int|
                    0 <= i < x_size && 0 <= j < y_size ==> #[trigger] grid.map@[i]@[j] == fresh_node(
                        (i, j),
                        terrain_of(wall_rows(walls@), start_pos@, end_pos@, (i, j)),
                        end_pos@,
                    )
            },
    {
        let ghost rows = wall_rows(walls@);
        match check_extents(x_size, y_size) {
            Some(error) => {
                return Err(error);
            },
            None => {},
        }
        if walls.len() != x_size || start_pos.x >= x_size || start_pos.y >= y_size || end_pos.x
            >= x_size || end_pos.y >= y_size {
            return Err(GridError::OutOfBounds);
        }
        let mut terrain: Vec<Vec<NodeState>> = Vec::new();
        let mut i: usize = 0;
        while i < x_size
            invariant
                i <= x_size,
                extents_error(x_size, y_size) is None,
                rows == wall_rows(walls@),
                walls@.len() == x_size,
                forall|r: int| 0 <= r < i ==> (#[trigger] rows[r]).len() == y_size,
                terrain@.len() == i,
                forall|r: int| 0 <= r < i ==> (#[trigger] terrain@[r])@.len() == y_size,
                forall|r: int, c: int|
                    0 <= r < i && 0 <= c < y_size ==> #[trigger] terrain@[r]@[c] == terrain_of(
                        rows,
                        start_pos@,
                        end_pos@,
                        (r, c),
                    ),
            decreases x_size - i,
        {
            if walls[i].len() != y_size {
                assert(rows[i as int].len() != y_size);
                return Err(GridError::OutOfBounds);
            }
            let mut row: Vec<NodeState> = Vec::new();
            let mut j: usize = 0;
            while j < y_size
                invariant
                    i < x_size,
                    j <= y_size,
                    rows == wall_rows(walls@),
                    walls@.len() == x_size,
                    walls@[i as int]@.len() == y_size,
                    row@.len() == j,
                    forall|c: int|
                        0 <= c < j ==> #[trigger] row@[c] == terrain_of(
                            rows,
                            start_pos@,
                            end_pos@,
                            (i as int, c),
                        ),
                decreases y_size - j,
            {
                let state = if i == end_pos.x && j == end_pos.y {
                    NodeState::Destination
                } else if i == start_pos.x && j == start_pos.y {
                    NodeState::Start
                } else if walls[i][j] {
                    NodeState::Wall
                } else {
                    NodeState::Open
                };
                assert(rows[i as int][j as int] == walls@[i as int]@[j as int]);
                row.push(state);
                j = j + 1;
            }
            terrain.push(row);
            i = i + 1;
        }
        assert(walls_fit(rows, start_pos, end_pos, x_size, y_size));
        Ok(Grid::from_terrain(&terrain, start_pos, end_pos, x_size, y_size))
    }

    /// Builds a grid of `x_size` rows and `y_size` columns at random: each
    /// cell is a wall with the probability three in ten, and the start and
    /// the destination are each put on a cell drawn from all cells alike.
    /// Where both fall on one cell, the grid has the destination there and
    /// the path from the start to it is empty.
    pub fn generate_random_grid(x_size: usize, y_size: usize, rng: &mut StdRng) -> (result: Result<
        Grid,
        GridError,
    >)
        ensures
            result matches Err(error) ==> extents_error(x_size, y_size) == Some(error),
            result matches Ok(grid) ==> {
                &&& extents_error(x_size, y_size) is None
                &&& grid.wf()
                &&& grid.unsearched()
                &&& grid.x_size == x_size
                &&& grid.y_size == y_size
            },
    {
        match check_extents(x_size, y_size) {
            Some(error) => {
                return Err(error);
            },
            None => {},
        }
        let mut walls: Vec<Vec<bool>> = Vec::new();
        let mut i: usize = 0;
        while i < x_size
            invariant
                i <= x_size,
                walls@.len() == i,
                forall|r: int| 0 <= r < i ==> (#[trigger] walls@[r])@.len() == y_size,
            decreases x_size - i,
        {
            let mut row: Vec<bool> = Vec::new();
            let mut j: usize = 0;
            while j < y_size
                invariant
                    j <= y_size,
                    row@.len() == j,
                decreases y_size - j,
            {
                let open = draw_ratio(rng, 7, 10);
                row.push(!open);
                j = j + 1;
            }
            walls.push(row);
            i = i + 1;
        }
        let start_pos = Pos { x: draw_below(rng, x_size), y: draw_below(rng, y_size) };
        let end_pos = Pos { x: draw_below(rng, x_size), y: draw_below(rng, y_size) };
        assert(walls_fit(wall_rows(walls@), start_pos, end_pos, x_size, y_size));
        Grid::from_walls(&walls, start_pos, end_pos, x_size, y_size)
    }

    /// Reads a grid of `x_size` rows and `y_size` columns from a text map:
    /// line `x` describes row `x`, its character `y` the cell in column `y`.
    /// A cell for which the text has no character is open.
    pub fn from(map_vec: Vec<String>, x_size: usize, y_size: usize) -> (result: Result<
        Grid,
        GridError,
    >)
        ensures
            result matches Err(error) ==> text_error(text_of(map_vec@), x_size, y_size) == Some(
                error,
            ),
            result matches Ok(grid) ==> {
                &&& text_error(text_of(map_vec@), x_size, y_size) is None
                &&& grid.wf()
                &&& grid.unsearched()
                &&& grid.x_size == x_size
                &&& grid.y_size == y_size
                &&& crate::text::holds(text_of(map_vec@), grid.start_pos@, START)
                &&& crate::text::holds(text_of(map_vec@), grid.end_pos@, DESTINATION)
                &&& forall|i: int, j: int|
                    0 <= i < x_size && 0 <= j < y_size ==> #[trigger] grid.map@[i]@[j] == fresh_node(
                        (i, j),
                        NodeState::of_symbol(symbol_at(text_of(map_vec@), (i, j))),
                        grid.end_pos@,
                    )
            },
    {
        let ghost text = text_of(map_vec@);
        match check_extents(x_size, y_size) {
            Some(error) => {
                return Err(error);
            },
            None => {},
        }
        let table = table_of(&map_vec);
        if !check_fits(&table, x_size, y_size) {
            return Err(GridError::OutOfBounds);
        }
        let (start, start_again) = find_symbol(&table, START);
        let (end, end_again) = find_symbol(&table, DESTINATION);
        let start_pos = match start {
            None => {
                return Err(GridError::MissingStart);
            },
            Some(p) => p,
        };
        if start_again {
            return Err(GridError::DuplicateStart);
        }
        let end_pos = match end {
            None => {
                return Err(GridError::MissingDestination);
            },
            Some(p) => p,
        };
        if end_again {
            return Err(GridError::DuplicateDestination);
        }
        let terrain = terrain_from_text(&table, x_size, y_size);
        proof {
            assert(text[start_pos@.0].len() <= y_size);
            assert(text[end_pos@.0].len() <= y_size);
            assert forall|i: int, j: int| 0 <= i < x_size && 0 <= j < y_size implies {
                let state = #[trigger] terrain@[i]@[j];
                &&& (state == NodeState::Destination <==> (i, j) == end_pos@)
                &&& (state == NodeState::Start <==> ((i, j) == start_pos@ && (i, j) != end_pos@))
            } by {
                let c = symbol_at(text, (i, j));
                assert(terrain@[i]@[j] == NodeState::of_symbol(c));
                if c == DESTINATION {
                    assert(crate::text::holds(text, (i, j), DESTINATION));
                }
                if c == START {
                    assert(crate::text::holds(text, (i, j), START));
                }
            }
        }
        Ok(Grid::from_terrain(&terrain, start_pos, end_pos, x_size, y_size))
    }
}

impl Grid {
    /// Whether the grid is well formed: it has the rows and columns that its
    /// extents say, every cell knows where it lies and holds its estimate,
    /// and the start and the destination stand where the grid says.
    pub fn is_well_formed(&self) -> (ok: bool)
        ensures
            ok == self.wf(),
    {
        if check_extents(self.x_size, self.y_size).is_some() {
            return false;
        }
        if self.map.len() != self.x_size || self.start_pos.x >= self.x_size || self.start_pos.y
            >= self.y_size || self.end_pos.x >= self.x_size || self.end_pos.y >= self.y_size {
            return false;
        }
        proof {
            lemma_extents_bounded(self.x_size, self.y_size);
        }
        let mut i: usize = 0;
        while i < self.x_size
            invariant
                i <= self.x_size,
                valid_extents(self.x_size, self.y_size),
                self.x_size <= MAX_CELLS,
                self.y_size <= MAX_CELLS,
                self.map@.len() == self.x_size,
                self.in_bounds(self.start_pos@),
                self.in_bounds(self.end_pos@),
                forall|r: int| 0 <= r < i ==> (#[trigger] self.map@[r])@.len() == self.y_size,
                forall|r: int, c: int|
                    0 <= r < i && 0 <= c < self.y_size ==> {
                        let node = #[trigger] self.map@[r]@[c];
                        &&& node.pos@ == (r, c)
                        &&& node.parent is None
                        &&& (node.node_state == NodeState::Destination <==> (r, c) == self.end_pos@)
                        &&& (node.node_state == NodeState::Start <==> ((r, c) == self.start_pos@ && (
                            r,
                            c,
                        ) != self.end_pos@))
                        &&& node.h == dist_spec((r, c), self.end_pos@)
                    },
            decreases self.x_size - i,
        {
            if self.map[i].len() != self.y_size {
                return false;
            }
            let mut j: usize = 0;
            while j < self.y_size
                invariant
                    i < self.x_size,
                    j <= self.y_size,
                    valid_extents(self.x_size, self.y_size),
                    self.x_size <= MAX_CELLS,
                    self.y_size <= MAX_CELLS,
                    self.map@.len() == self.x_size,
                    self.map@[i as int]@.len() == self.y_size,
                    self.in_bounds(self.start_pos@),
                    self.in_bounds(self.end_pos@),
                    forall|c: int|
                        0 <= c < j ==> {
                            let node = #[trigger] self.map@[i as int]@[c];
                            &&& node.pos@ == (i as int, c)
                            &&& node.parent is None
                            &&& (node.node_state == NodeState::Destination <==> (i as int, c)
                                == self.end_pos@)
                            &&& (node.node_state == NodeState::Start <==> ((i as int, c)
                                == self.start_pos@ && (i as int, c) != self.end_pos@))
                            &&& node.h == dist_spec((i as int, c), self.end_pos@)
                        },
                decreases self.y_size - j,
            {
                let node = self.map[i][j];
                let here = Pos { x: i, y: j };
                let is_end = here == self.end_pos;
                let is_start = here == self.start_pos && !is_end;
                if node.pos != here || node.parent.is_some() {
                    return false;
                }
                let state = node.node_state;
                if (state == NodeState::Destination) != is_end || (state == NodeState::Start)
                    != is_start {
                    return false;
                }
                proof {
                    lemma_dist_bounded((i as int, j as int), self.end_pos@);
                }
                if node.h != dist(&here, &self.end_pos) {
                    return false;
                }
                j = j + 1;
            }
            i = i + 1;
        }
        true
    }

    /// Whether no search has run on the grid.
    pub fn is_unsearched(&self) -> (ok: bool)
        requires
            self.shaped(),
        ensures
            ok == self.unsearched(),
    {
        let mut i: usize = 0;
        while i < self.x_size
            invariant
                i <= self.x_size,
                self.shaped(),
                forall|r: int, c: int|
                    0 <= r < i && 0 <= c < self.y_size ==> {
                        &&& (#[trigger] self.map@[r]@[c]).g == UNREACHED
                        &&& self.map@[r]@[c].f == UNREACHED
                    },
            decreases self.x_size - i,
        {
            let mut j: usize = 0;
            while j < self.y_size
                invariant
                    i < self.x_size,
                    j <= self.y_size,
                    self.shaped(),
                    forall|c: int|
                        0 <= c < j ==> {
                            &&& (#[trigger] self.map@[i as int]@[c]).g == UNREACHED
                            &&& self.map@[i as int]@[c].f == UNREACHED
                        },
                decreases self.y_size - j,
            {
                if self.map[i][j].g != UNREACHED || self.map[i][j].f != UNREACHED {
                    return false;
                }
                j = j + 1;
            }
            i = i + 1;
        }
        true
    }
}

} // verus!
