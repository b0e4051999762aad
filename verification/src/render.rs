//! What a picture of a grid shows: rows of coloured spans, ready to be drawn.

use vstd::prelude::*;
use crate::grid::Grid;
use crate::node::{Node, NodeState, Pos};

verus! {

/// The colours of a picture.
#[derive(Debug, Clone, Copy, PartialEq, Eq, Structural)]
pub enum Paint {
    /// The frame round the grid.
    Frame,
    Wall,
    Destination,
    Open,
    Start,
    /// An open cell that lies on the path found.
    Path,
}

/// A run of `width` blocks in one colour.
#[derive(Debug, Clone, Copy, PartialEq, Eq, Structural)]
pub struct Span {
    pub paint: Paint,
    pub width: usize,
}

impl Paint {
    /// The terrain that a colour shows; the frame shows none, and a cell of
    /// the path is open ground.
    pub open spec fn terrain(self) -> Option<NodeState> {
        match self {
            Paint::Frame => None,
            Paint::Wall => Some(NodeState::Wall),
            Paint::Destination => Some(NodeState::Destination),
            Paint::Open => Some(NodeState::Open),
            Paint::Start => Some(NodeState::Start),
            Paint::Path => Some(NodeState::Open),
        }
    }
}

/// The path holds a cell at the position.
pub open spec fn on_path(path: Seq<Node>, pos: Pos) -> bool {
    exists|i: int| 0 <= i < path.len() && (#[trigger] path[i]).pos == pos
}

/// The colour of a cell: that of its terrain, but for an open cell on the path.
pub open spec fn paint_of(state: NodeState, path: Seq<Node>, pos: Pos) -> Paint {
    match state {
        NodeState::Wall => Paint::Wall,
        NodeState::Destination => Paint::Destination,
        NodeState::Start => Paint::Start,
        NodeState::Open => if on_path(path, pos) {
            Paint::Path
        } else {
            Paint::Open
        },
    }
}

/// The row of the frame above and below a grid of `y_size` columns.
pub open spec fn frame_row(y_size: usize) -> Seq<Span> {
    Seq::new((y_size + 3) as nat, |j: int| Span { paint: Paint::Frame, width: 2 })
}

/// The row of the picture for row `i` of the grid: the frame, the cells, the
/// frame.
pub open spec fn cell_row(grid: Grid, path: Seq<Node>, i: int) -> Seq<Span> {
    Seq::new(
        (grid.y_size + 2) as nat,
        |j: int|
            if j == 0 || j == grid.y_size + 1 {
                Span { paint: Paint::Frame, width: 3 }
            } else {
                Span {
                    paint: paint_of(
                        grid.map@[i]@[j - 1].node_state,
                        path,
                        grid.map@[i]@[j - 1].pos,
                    ),
                    width: 2,
                }
            },
    )
}

/// The picture of a grid with a path: a row of frame, the rows of the grid,
/// a row of frame.
pub open spec fn picture(grid: Grid, path: Seq<Node>) -> Seq<Seq<Span>> {
    Seq::new(
        (grid.x_size + 2) as nat,
        |i: int|
            if i == 0 || i == grid.x_size + 1 {
                frame_row(grid.y_size)
            } else {
                cell_row(grid, path, i - 1)
            },
    )
}

/// The rows of a picture, each as a sequence.
pub open spec fn span_rows(rows: Seq<Vec<Span>>) -> Seq<Seq<Span>> {
    Seq::new(rows.len(), |i: int| rows[i]@)
}

/// Whether the path holds a cell at the position.
pub fn path_holds(path: &Vec<Node>, pos: Pos) -> (found: bool)
    ensures
        found == on_path(path@, pos),
{
    let mut i: usize = 0;
    while i < path.len()
        invariant
            i <= path.len(),
            forall|k: int| 0 <= k < i ==> (#[trigger] path@[k]).pos != pos,
        decreases path.len() - i,
    {
        if path[i].pos == pos {
            return true;
        }
        i = i + 1;
    }
    false
}

/// The row of the frame.
fn render_frame(y_size: usize) -> (row: Vec<Span>)
    requires
        y_size + 3 <= usize::MAX,
    ensures
        row@ == frame_row(y_size),
{
    let mut row: Vec<Span> = Vec::new();
    let mut j: usize = 0;
    while j < y_size + 3
        invariant
            j <= y_size + 3 <= usize::MAX,
            row@.len() == j,
            forall|c: int| 0 <= c < j ==> #[trigger] row@[c] == (Span { paint: Paint::Frame, width: 2 }),
        decreases y_size + 3 - j,
    {
        row.push(Span { paint: Paint::Frame, width: 2 });
        j = j + 1;
    }
    assert(row@ =~= frame_row(y_size));
    row
}

impl Grid {
    /// The picture of the grid: every cell in the colour of its terrain
    /// inside a frame.
    pub fn render_grid(&self) -> (rows: Vec<Vec<Span>>)
        requires
            self.shaped(),
        ensures
            span_rows(rows@) == picture(*self, Seq::empty()),
    {
        let path: Vec<Node> = Vec::new();
        self.render_path(&path)
    }

    /// The picture of the grid with a path: every cell in the colour of its
    /// terrain, but the open cells of the path in the colour of the path,
    /// inside a frame.
    pub fn render_path(&self, path: &Vec<Node>) -> (rows: Vec<Vec<Span>>)
        requires
            self.shaped(),
        ensures
            span_rows(rows@) == picture(*self, path@),
    {
        proof {
            crate::grid::lemma_extents_bounded(self.x_size, self.y_size);
        }
        let mut rows: Vec<Vec<Span>> = Vec::new();
        rows.push(render_frame(self.y_size));
        let mut i: usize = 0;
        while i < self.x_size
            invariant
                i <= self.x_size,
                self.shaped(),
                self.y_size + 3 <= usize::MAX,
                rows@.len() == i + 1,
                rows@[0]@ == frame_row(self.y_size),
                forall|r: int| 0 <= r < i ==> (#[trigger] rows@[r + 1])@ == cell_row(*self, path@, r),
            decreases self.x_size - i,
        {
            let mut row: Vec<Span> = Vec::new();
            row.push(Span { paint: Paint::Frame, width: 3 });
            let mut j: usize = 0;
            while j < self.y_size
                invariant
                    i < self.x_size,
                    j <= self.y_size,
                    self.shaped(),
                    row@.len() == j + 1,
                    forall|c: int| 0 <= c <= j ==> #[trigger] row@[c] == cell_row(*self, path@, i as int)[c],
                decreases self.y_size - j,
            {
                let node = self.map[i][j];
                let paint = match node.node_state {
                    NodeState::Wall => Paint::Wall,
                    NodeState::Destination => Paint::Destination,
                    NodeState::Start => Paint::Start,
                    NodeState::Open => if path_holds(path, node.pos) {
                        Paint::Path
                    } else {
                        Paint::Open
                    },
                };
                row.push(Span { paint, width: 2 });
                j = j + 1;
            }
            row.push(Span { paint: Paint::Frame, width: 3 });
            assert(row@ =~= cell_row(*self, path@, i as int));
            let ghost above = rows@;
            rows.push(row);
            i = i + 1;
            assert forall|r: int| 0 <= r < i implies (#[trigger] rows@[r + 1])@ == cell_row(
                *self,
                path@,
                r,
            ) by {
                if r + 1 < i {
                    assert(rows@[r + 1] == above[r + 1]);
                }
            }
        }
        let ghost inner = rows@;
        rows.push(render_frame(self.y_size));
        assert forall|r: int| 0 <= r < rows@.len() implies #[trigger] span_rows(rows@)[r] == picture(
            *self,
            path@,
        )[r] by {
            if 0 < r <= self.x_size {
                assert(rows@[r] == inner[(r - 1) + 1]);
            } else if r == 0 {
                assert(rows@[0] == inner[0]);
            }
        }
        assert(span_rows(rows@) =~= picture(*self, path@));
        rows
    }
}

} // verus!
