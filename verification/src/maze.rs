use vstd::prelude::*;

use crate::chain::chain_reaches;
use crate::chain::lemma_reaches_mono;
use crate::chain::lemma_reaches_within_size;
use crate::chain::lemma_reroot_reaches;
use crate::geometry::dist_sq;
use crate::geometry::Direction;

verus! {

/// The number of columns and rows of the maze grid.
#[derive(Debug, Clone, Copy, PartialEq, Eq, Structural)]
pub struct MazeShape {
    pub cols: usize,
    pub rows: usize,
}

/// One cell of the grid: its column `x`, its row `y`, and the node it
/// currently points to in the spanning tree, if any.  Nodes are identified
/// by their index `y * cols + x` into the maze's node vector.
#[derive(Debug, Clone, Copy, PartialEq, Eq)]
pub struct MazeNode {
    pub x: usize,
    pub y: usize,
    pub parent: Option<usize>,
}

/// A rooted spanning tree over a fixed grid of cells, together with the
/// geometric configuration the walls and the visibility sampler derive
/// from.  `cell_size`, `path_thickness` and `view_distance` are in world
/// units; positions are exposed in doubled world units so that cell
/// centres stay integral.
#[derive(Debug)]
pub struct Maze {
    pub rows: usize,
    pub cols: usize,
    pub cell_size: u32,
    pub path_thickness: u32,
    pub view_distance: u32,
    pub nodes: Vec<MazeNode>,
    pub root: usize,
}

/// The parent a cell starts with: each row is chained rightward, and the
/// last column is chained downward, so the whole grid forms one comb-shaped
/// tree whose root is the last cell of the last row.
pub open spec fn serpentine_parent(rows: int, cols: int, x: int, y: int) -> Option<usize> {
    if x + 1 < cols {
        Some((y * cols + x + 1) as usize)
    } else if y + 1 < rows {
        Some(((y + 1) * cols + x) as usize)
    } else {
        None
    }
}

impl Maze {
    /// Total number of cells.
    pub open spec fn node_count(self) -> int {
        self.rows * self.cols
    }

    /// The index of cell `(x, y)`.
    pub open spec fn id_of(self, x: int, y: int) -> int {
        y * self.cols + x
    }

    /// Configuration bounds.  The numeric caps keep every derived world
    /// coordinate and squared distance inside the integer types used by
    /// the executable code.
    pub open spec fn wf_config(self) -> bool {
        &&& 1 <= self.rows <= 4096
        &&& 1 <= self.cols <= 4096
        &&& 1 <= self.cell_size <= 0x10000
        &&& self.path_thickness < self.cell_size
        &&& self.view_distance <= 0x4000_0000
        &&& self.nodes@.len() == self.rows * self.cols
        &&& self.nodes@.len() <= 0x100_0000
    }

    /// Every node records the coordinates of its own slot.
    pub open spec fn nodes_indexed(self) -> bool {
        forall|i: int|
            0 <= i < self.nodes@.len() ==> {
                let n = #[trigger] self.nodes@[i];
                n.x < self.cols && n.y < self.rows && i == n.y * self.cols + n.x
            }
    }

    /// Whether nodes `i` and `p` occupy 4-adjacent grid cells.
    pub open spec fn adjacent_ids(self, i: int, p: int) -> bool {
        let a = self.nodes@[i];
        let b = self.nodes@[p];
        (a.x == b.x && (a.y == b.y + 1 || b.y == a.y + 1)) || (a.y == b.y && (a.x == b.x + 1
            || b.x == a.x + 1))
    }

    /// Every parent reference stays on the grid and crosses exactly one
    /// cell edge.
    pub open spec fn parents_adjacent(self) -> bool {
        forall|i: int|
            0 <= i < self.nodes@.len() && (#[trigger] self.nodes@[i].parent) is Some ==> {
                let p = self.nodes@[i].parent->0 as int;
                &&& 0 <= p < self.nodes@.len()
                &&& self.adjacent_ids(i, p)
            }
    }

    /// The root is the one node without a parent.
    pub open spec fn single_root(self) -> bool {
        &&& self.root < self.nodes@.len()
        &&& self.nodes@[self.root as int].parent is None
        &&& forall|i: int|
            0 <= i < self.nodes@.len() && i != self.root ==> (#[trigger] self.nodes@[i].parent)
                is Some
    }

    /// The parent links of all nodes, as a sequence indexed by node id.
    pub open spec fn parents(self) -> Seq<Option<usize>> {
        Seq::new(self.nodes@.len(), |i: int| self.nodes@[i].parent)
    }

    /// Whether the parent chain from node `i` arrives at the root within
    /// `fuel` steps.
    pub open spec fn reaches_root(self, i: int, fuel: nat) -> bool {
        chain_reaches(self.parents(), self.root as int, i, fuel)
    }

    /// Whether the parent chain from node `i` terminates at the root.
    pub open spec fn node_connected(self, i: int) -> bool {
        exists|fuel: nat| self.reaches_root(i, fuel)
    }

    /// Every parent chain terminates at the root.
    pub open spec fn connected(self) -> bool {
        forall|i: int| 0 <= i < self.nodes@.len() ==> #[trigger] self.node_connected(i)
    }

    /// The maze invariant: a well-shaped configuration carrying a rooted
    /// spanning tree whose edges join adjacent cells.
    pub open spec fn wf(self) -> bool {
        &&& self.wf_config()
        &&& self.nodes_indexed()
        &&& self.parents_adjacent()
        &&& self.single_root()
        &&& self.connected()
    }

    /// Doubled world x coordinate of node `i`'s centre: the grid is
    /// centred on the origin.
    pub open spec fn pos2_x(self, i: int) -> int {
        (2 * self.nodes@[i].x - self.cols + 1) * self.cell_size
    }

    /// Doubled world y coordinate of node `i`'s centre.
    pub open spec fn pos2_y(self, i: int) -> int {
        (2 * self.nodes@[i].y - self.rows + 1) * self.cell_size
    }

    /// Whether stepping from node `i` in direction `d` stays on the grid.
    pub open spec fn dir_in_bounds(self, i: int, d: Direction) -> bool {
        let n = self.nodes@[i];
        &&& 0 <= n.x + d.step_x() < self.cols
        &&& 0 <= n.y + d.step_y() < self.rows
    }

    /// The index of the neighbour of node `i` in direction `d`.
    pub open spec fn neighbor_id(self, i: int, d: Direction) -> int {
        (self.nodes@[i].y + d.step_y()) * self.cols + (self.nodes@[i].x + d.step_x())
    }

    /// Doubled world x of the centre of the cell the root would move to
    /// by a step in direction `d` from node `i` — the point the
    /// observer-distance exclusion tests.
    pub open spec fn probe_x2(self, i: int, d: Direction) -> int {
        self.pos2_x(i) + 2 * self.cell_size * d.step_x()
    }

    /// Doubled world y of the relocation target's centre.
    pub open spec fn probe_y2(self, i: int, d: Direction) -> int {
        self.pos2_y(i) + 2 * self.cell_size * d.step_y()
    }

    /// Whether the root may step in direction `d`: the step must stay on
    /// the grid, and, when an observer position (in doubled world units)
    /// is supplied, the relocation target must lie strictly farther than
    /// `view_distance` from the observer.
    pub open spec fn dir_available(self, d: Direction, player: Option<(i64, i64)>) -> bool {
        &&& self.dir_in_bounds(self.root as int, d)
        &&& match player {
            Some(p) => dist_sq(
                self.probe_x2(self.root as int, d),
                self.probe_y2(self.root as int, d),
                p.0 as int,
                p.1 as int,
            ) > 4 * (self.view_distance * self.view_distance),
            None => true,
        }
    }

    /// The available directions, in the fixed query order.
    pub open spec fn available_seq(self, player: Option<(i64, i64)>) -> Seq<Direction> {
        let u: Seq<Direction> = if self.dir_available(Direction::Up, player) {
            seq![Direction::Up]
        } else {
            Seq::empty()
        };
        let d: Seq<Direction> = if self.dir_available(Direction::Down, player) {
            seq![Direction::Down]
        } else {
            Seq::empty()
        };
        let l: Seq<Direction> = if self.dir_available(Direction::Left, player) {
            seq![Direction::Left]
        } else {
            Seq::empty()
        };
        let r: Seq<Direction> = if self.dir_available(Direction::Right, player) {
            seq![Direction::Right]
        } else {
            Seq::empty()
        };
        u + d + l + r
    }

    /// The exact effect of relocating the root of `m0` in direction `d`:
    /// the configuration and every node's coordinates are kept, the old
    /// root now points at the new one, the new root's parent link is
    /// cleared, and no other parent link changes.
    pub open spec fn relocated_from(self, m0: Maze, d: Direction) -> bool {
        &&& self.rows == m0.rows
        &&& self.cols == m0.cols
        &&& self.cell_size == m0.cell_size
        &&& self.path_thickness == m0.path_thickness
        &&& self.view_distance == m0.view_distance
        &&& self.nodes@.len() == m0.nodes@.len()
        &&& self.root as int == m0.neighbor_id(m0.root as int, d)
        &&& self.nodes@[m0.root as int].parent == Some(self.root)
        &&& self.nodes@[self.root as int].parent is None
        &&& forall|i: int|
            0 <= i < self.nodes@.len() && i != m0.root && i != self.root
                ==> #[trigger] self.nodes@[i] == m0.nodes@[i]
        &&& forall|i: int|
            0 <= i < self.nodes@.len() ==> (#[trigger] self.nodes@[i]).x == m0.nodes@[i].x
                && self.nodes@[i].y == m0.nodes@[i].y
    }

    /// Whether node `i` lies strictly within the given squared radius of
    /// a position (all in doubled world units).
    pub open spec fn node_within(self, i: int, px: int, py: int, radius2: int) -> bool {
        dist_sq(self.pos2_x(i), self.pos2_y(i), px, py) < radius2 * radius2
    }

    /// The indices of the nodes strictly within `radius2` of the given
    /// position, in index order.
    pub open spec fn range_ids(self, px: int, py: int, radius2: int, n: int) -> Seq<usize>
        decreases n,
    {
        if n <= 0 {
            Seq::empty()
        } else if self.node_within(n - 1, px, py, radius2) {
            self.range_ids(px, py, radius2, n - 1) + seq![(n - 1) as usize]
        } else {
            self.range_ids(px, py, radius2, n - 1)
        }
    }

    /// The nodes whose centres lie strictly within `radius2` of the given
    /// position: the neighbourhood that collider spawning and fog
    /// consumers may restrict themselves to.
    pub fn nodes_in_range(&self, px: i64, py: i64, radius2: i64) -> (ids: Vec<usize>)
        requires
            self.wf(),
            Maze::player_in_range(Some((px, py))),
            0 <= radius2 <= 0x1_0000_0000,
        ensures
            ids@ == self.range_ids(px as int, py as int, radius2 as int, self.nodes@.len() as int),
    {
        let mut ids: Vec<usize> = Vec::new();
        let mut i: usize = 0;
        while i < self.nodes.len()
            invariant
                self.wf(),
                Maze::player_in_range(Some((px, py))),
                0 <= radius2 <= 0x1_0000_0000,
                i <= self.nodes@.len(),
                ids@ == self.range_ids(px as int, py as int, radius2 as int, i as int),
            decreases self.nodes@.len() - i,
        {
            let pos = self.node_position(i);
            let ddx: i128 = (pos.0 as i128) - (px as i128);
            let ddy: i128 = (pos.1 as i128) - (py as i128);
            proof {
                assert(0 <= ddx * ddx <= 0x2_0000_0000_0000 * 0x2_0000_0000_0000 && 0 <= ddy * ddy
                    <= 0x2_0000_0000_0000 * 0x2_0000_0000_0000) by (nonlinear_arith)
                    requires
                        -0x2_0000_0000_0000 <= ddx <= 0x2_0000_0000_0000,
                        -0x2_0000_0000_0000 <= ddy <= 0x2_0000_0000_0000,
                ;
                assert(0 <= (radius2 as int) * (radius2 as int) <= 0x1_0000_0000 * 0x1_0000_0000)
                    by (nonlinear_arith)
                    requires
                        0 <= radius2 <= 0x1_0000_0000,
                ;
            }
            if ddx * ddx + ddy * ddy < (radius2 as i128) * (radius2 as i128) {
                ids.push(i);
            }
            i += 1;
        }
        ids
    }

    /// Whether an observer position in doubled world units is small enough
    /// for the availability arithmetic.
    pub open spec fn player_in_range(player: Option<(i64, i64)>) -> bool {
        match player {
            Some(p) => {
                &&& -0x1_0000_0000_0000 <= p.0 <= 0x1_0000_0000_0000
                &&& -0x1_0000_0000_0000 <= p.1 <= 0x1_0000_0000_0000
            },
            None => true,
        }
    }
}

/// Cell coordinates are recoverable from a node index: two coordinate
/// pairs that map to the same index are equal.
pub proof fn lemma_id_unique(cols: int, x1: int, y1: int, x2: int, y2: int)
    requires
        0 <= x1 < cols,
        0 <= x2 < cols,
        y1 * cols + x1 == y2 * cols + x2,
    ensures
        x1 == x2,
        y1 == y2,
{
    assert(x1 == x2 && y1 == y2) by (nonlinear_arith)
        requires
            0 <= x1 < cols,
            0 <= x2 < cols,
            y1 * cols + x1 == y2 * cols + x2,
    ;
}

/// What each node of a freshly built maze must look like.
spec fn build_node_ok(rows: int, cols: int, ns: Seq<MazeNode>, i: int) -> bool {
    let n = ns[i];
    &&& n.x < cols
    &&& n.y < rows
    &&& i == n.y * cols + n.x
    &&& n.parent == serpentine_parent(rows, cols, n.x as int, n.y as int)
}

/// In the freshly built comb tree, the chain from cell `(x, y)` walks to
/// the end of its row and then down the last column, arriving at the root
/// in `(cols - 1 - x) + (rows - 1 - y)` steps.
proof fn lemma_serpentine_reaches(m: Maze, i: int)
    requires
        m.wf_config(),
        m.nodes_indexed(),
        m.root + 1 == m.rows * m.cols,
        forall|j: int|
            0 <= j < m.nodes@.len() ==> (#[trigger] m.nodes@[j]).parent == serpentine_parent(
                m.rows as int,
                m.cols as int,
                m.nodes@[j].x as int,
                m.nodes@[j].y as int,
            ),
        0 <= i < m.nodes@.len(),
    ensures
        m.reaches_root(i, ((m.cols - m.nodes@[i].x) + (m.rows - m.nodes@[i].y) - 2) as nat),
    decreases (m.cols - m.nodes@[i].x) + (m.rows - m.nodes@[i].y),
{
    let rows = m.rows as int;
    let cols = m.cols as int;
    let n = m.nodes@[i];
    let x = n.x as int;
    let y = n.y as int;
    let fuel = ((cols - x) + (rows - y) - 2) as nat;
    assert(i == y * cols + x);
    if x + 1 < cols {
        let p = i + 1;
        assert(p == y * cols + (x + 1));
        assert(p < rows * cols) by (nonlinear_arith)
            requires
                p == y * cols + x + 1,
                0 <= y < rows,
                0 <= x,
                x + 1 < cols,
        ;
        lemma_id_unique(cols, m.nodes@[p].x as int, m.nodes@[p].y as int, x + 1, y);
        lemma_serpentine_reaches(m, p);
        assert(m.parents()[i] == n.parent);
        assert(n.parent == Some(p as usize));
        assert(m.reaches_root(p, (fuel - 1) as nat));
        assert(m.reaches_root(i, fuel));
    } else if y + 1 < rows {
        let p = i + cols;
        assert(p == (y + 1) * cols + x) by (nonlinear_arith)
            requires
                i == y * cols + x,
                p == i + cols,
        ;
        assert(p < rows * cols) by (nonlinear_arith)
            requires
                p == (y + 1) * cols + x,
                0 <= x < cols,
                y + 1 < rows,
        ;
        lemma_id_unique(cols, m.nodes@[p].x as int, m.nodes@[p].y as int, x, y + 1);
        lemma_serpentine_reaches(m, p);
        assert(m.parents()[i] == n.parent);
        assert(n.parent == Some(p as usize));
        assert(m.reaches_root(p, (fuel - 1) as nat));
        assert(m.reaches_root(i, fuel));
    } else {
        assert(i == m.root) by (nonlinear_arith)
            requires
                i == y * cols + x,
                x == cols - 1,
                y == rows - 1,
                m.root + 1 == rows * cols,
        ;
    }
}

impl Maze {
    /// Build the maze: a grid of `shape.cols` by `shape.rows` cells whose
    /// parent links form the initial comb-shaped spanning tree, rooted at
    /// the last cell of the last row.
    pub fn new(shape: MazeShape, cell_size: u32, path_thickness: u32, view_distance: u32) -> (m:
        Maze)
        requires
            1 <= shape.rows <= 4096,
            1 <= shape.cols <= 4096,
            1 <= cell_size <= 0x10000,
            path_thickness < cell_size,
            view_distance <= 0x4000_0000,
        ensures
            m.wf(),
            m.rows == shape.rows,
            m.cols == shape.cols,
            m.cell_size == cell_size,
            m.path_thickness == path_thickness,
            m.view_distance == view_distance,
            m.root + 1 == shape.rows * shape.cols,
            forall|i: int|
                0 <= i < m.nodes@.len() ==> (#[trigger] m.nodes@[i]).parent == serpentine_parent(
                    shape.rows as int,
                    shape.cols as int,
                    m.nodes@[i].x as int,
                    m.nodes@[i].y as int,
                ),
            forall|i: int|
                0 <= i < m.nodes@.len() ==> #[trigger] m.reaches_root(
                    i,
                    (shape.rows + shape.cols) as nat,
                ),
    {
        let rows = shape.rows;
        let cols = shape.cols;
        let mut nodes: Vec<MazeNode> = Vec::new();
        let mut y: usize = 0;
        while y < rows
            invariant
                y <= rows,
                1 <= rows <= 4096,
                1 <= cols <= 4096,
                nodes@.len() == y * cols,
                forall|i: int|
                    0 <= i < nodes@.len() ==> #[trigger] build_node_ok(
                        rows as int,
                        cols as int,
                        nodes@,
                        i,
                    ),
            decreases rows - y,
        {
            let mut x: usize = 0;
            assert(y * cols + cols == (y + 1) * cols) by (nonlinear_arith);
            assert((y + 1) * cols <= rows * cols) by (nonlinear_arith)
                requires
                    y + 1 <= rows,
                    cols >= 0,
            ;
            assert(rows * cols <= 4096 * 4096) by (nonlinear_arith)
                requires
                    0 <= rows <= 4096,
                    0 <= cols <= 4096,
            ;
            while x < cols
                invariant
                    x <= cols,
                    y < rows,
                    1 <= rows <= 4096,
                    1 <= cols <= 4096,
                    y * cols + cols <= 4096 * 4096,
                    nodes@.len() == y * cols + x,
                    forall|i: int|
                        0 <= i < nodes@.len() ==> #[trigger] build_node_ok(
                            rows as int,
                            cols as int,
                            nodes@,
                            i,
                        ),
                decreases cols - x,
            {
                let parent: Option<usize> = if x + 1 < cols {
                    Some(y * cols + x + 1)
                } else if y + 1 < rows {
                    assert((y + 1) * cols + x == y * cols + x + cols) by (nonlinear_arith);
                    Some((y + 1) * cols + x)
                } else {
                    None
                };
                let ghost prev = nodes@;
                nodes.push(MazeNode { x, y, parent });
                proof {
                    assert forall|i: int| 0 <= i < nodes@.len() implies #[trigger] build_node_ok(
                        rows as int,
                        cols as int,
                        nodes@,
                        i,
                    ) by {
                        if i < prev.len() {
                            assert(build_node_ok(rows as int, cols as int, prev, i));
                            assert(nodes@[i] == prev[i]);
                        } else {
                            assert(nodes@[i] == MazeNode { x, y, parent });
                        }
                    }
                }
                x += 1;
            }
            y += 1;
        }
        assert(nodes@.len() == rows * cols);
        assert(rows * cols >= 1) by (nonlinear_arith)
            requires
                rows >= 1,
                cols >= 1,
        ;
        assert(rows * cols <= 0x100_0000) by (nonlinear_arith)
            requires
                1 <= rows <= 4096,
                1 <= cols <= 4096,
        ;
        let root = nodes.len() - 1;
        let m = Maze { rows, cols, cell_size, path_thickness, view_distance, nodes, root };
        proof {
            let rowsi = rows as int;
            let colsi = cols as int;
            let len = m.nodes@.len() as int;
            assert forall|i: int| 0 <= i < len implies {
                let n = #[trigger] m.nodes@[i];
                n.x < m.cols && n.y < m.rows && i == n.y * m.cols + n.x
            } by {
                assert(build_node_ok(rowsi, colsi, m.nodes@, i));
            }
            // the root sits at the far corner
            assert(m.root as int == (rowsi - 1) * colsi + (colsi - 1)) by (nonlinear_arith)
                requires
                    m.root + 1 == rowsi * colsi,
                    colsi >= 1,
                    rowsi >= 1,
            ;
            assert(build_node_ok(rowsi, colsi, m.nodes@, m.root as int));
            lemma_id_unique(
                colsi,
                m.nodes@[m.root as int].x as int,
                m.nodes@[m.root as int].y as int,
                colsi - 1,
                rowsi - 1,
            );
            // every non-root node has a parent, and parents are adjacent in-range cells
            assert forall|i: int|
                0 <= i < len && (#[trigger] m.nodes@[i].parent) is Some implies {
                let p = m.nodes@[i].parent->0 as int;
                0 <= p < len && m.adjacent_ids(i, p)
            } by {
                assert(build_node_ok(rowsi, colsi, m.nodes@, i));
                let n = m.nodes@[i];
                let x = n.x as int;
                let y = n.y as int;
                if x + 1 < colsi {
                    let p = y * colsi + x + 1;
                    assert(p == i + 1);
                    assert(0 <= p < len);
                    assert(build_node_ok(rowsi, colsi, m.nodes@, p));
                    lemma_id_unique(colsi, m.nodes@[p].x as int, m.nodes@[p].y as int, x + 1, y);
                } else {
                    let p = (y + 1) * colsi + x;
                    assert(p == i + colsi) by (nonlinear_arith)
                        requires
                            i == y * colsi + x,
                            p == (y + 1) * colsi + x,
                    ;
                    assert(p < rowsi * colsi) by (nonlinear_arith)
                        requires
                            p == (y + 1) * colsi + x,
                            0 <= x < colsi,
                            y + 1 < rowsi,
                    ;
                    assert(build_node_ok(rowsi, colsi, m.nodes@, p));
                    lemma_id_unique(colsi, m.nodes@[p].x as int, m.nodes@[p].y as int, x, y + 1);
                }
            }
            assert forall|i: int| 0 <= i < len && i != m.root implies (#[trigger] m.nodes@[i].parent)
                is Some by {
                assert(build_node_ok(rowsi, colsi, m.nodes@, i));
                let n = m.nodes@[i];
                if n.x as int + 1 >= colsi && n.y as int + 1 >= rowsi {
                    lemma_id_unique(
                        colsi,
                        n.x as int,
                        n.y as int,
                        colsi - 1,
                        rowsi - 1,
                    );
                    assert(i == (rowsi - 1) * colsi + (colsi - 1));
                }
            }
            assert forall|i: int| 0 <= i < len implies (#[trigger] m.nodes@[i]).parent
                == serpentine_parent(
                rowsi,
                colsi,
                m.nodes@[i].x as int,
                m.nodes@[i].y as int,
            ) by {
                assert(build_node_ok(rowsi, colsi, m.nodes@, i));
            }
            assert forall|i: int| 0 <= i < len implies #[trigger] m.node_connected(i) by {
                assert(build_node_ok(rowsi, colsi, m.nodes@, i));
                lemma_serpentine_reaches(m, i);
            }
            assert forall|i: int| 0 <= i < len implies #[trigger] m.reaches_root(
                i,
                (rows + cols) as nat,
            ) by {
                assert(build_node_ok(rowsi, colsi, m.nodes@, i));
                lemma_serpentine_reaches(m, i);
                let fuel = ((colsi - m.nodes@[i].x) + (rowsi - m.nodes@[i].y) - 2) as nat;
                lemma_reaches_mono(m.parents(), m.root as int, i, fuel, (rows + cols) as nat);
            }
        }
        m
    }

    /// Doubled world position of node `i`.
    pub fn node_position(&self, i: usize) -> (p: (i64, i64))
        requires
            self.wf(),
            i < self.nodes@.len(),
        ensures
            p.0 == self.pos2_x(i as int),
            p.1 == self.pos2_y(i as int),
            -0x2000_0000 <= p.0 <= 0x2000_0000,
            -0x2000_0000 <= p.1 <= 0x2000_0000,
    {
        let n = self.nodes[i];
        let fx: i64 = 2 * (n.x as i64) - (self.cols as i64) + 1;
        let fy: i64 = 2 * (n.y as i64) - (self.rows as i64) + 1;
        proof {
            assert(fx * self.cell_size <= 0x2000 * 0x10000 && fx * self.cell_size >= -0x2000
                * 0x10000) by (nonlinear_arith)
                requires
                    -0x2000 <= fx <= 0x2000,
                    0 <= self.cell_size <= 0x10000,
            ;
            assert(fy * self.cell_size <= 0x2000 * 0x10000 && fy * self.cell_size >= -0x2000
                * 0x10000) by (nonlinear_arith)
                requires
                    -0x2000 <= fy <= 0x2000,
                    0 <= self.cell_size <= 0x10000,
            ;
        }
        (fx * (self.cell_size as i64), fy * (self.cell_size as i64))
    }

    /// The index of the neighbour of node `i` in direction `d`.
    pub fn neighbor_index(&self, i: usize, d: Direction) -> (r: usize)
        requires
            self.wf(),
            i < self.nodes@.len(),
            self.dir_in_bounds(i as int, d),
        ensures
            r as int == self.neighbor_id(i as int, d),
            r < self.nodes@.len(),
    {
        let n = self.nodes[i];
        proof {
            let rowsi = self.rows as int;
            let colsi = self.cols as int;
            assert(i as int == n.y * colsi + n.x);
            assert(n.y * colsi >= 0) by (nonlinear_arith)
                requires
                    n.y >= 0,
                    colsi >= 0,
            ;
            assert(rowsi * colsi <= 4096 * 4096) by (nonlinear_arith)
                requires
                    0 <= rowsi <= 4096,
                    0 <= colsi <= 4096,
            ;
        }
        let r: usize;
        match d {
            Direction::Up => {
                proof {
                    let colsi = self.cols as int;
                    assert(n.y * colsi >= colsi) by (nonlinear_arith)
                        requires
                            n.y >= 1,
                            colsi >= 1,
                    ;
                    assert((n.y - 1) * colsi + n.x == i - colsi) by (nonlinear_arith)
                        requires
                            i as int == n.y * colsi + n.x,
                    ;
                }
                r = i - self.cols;
            }
            Direction::Down => {
                proof {
                    let rowsi = self.rows as int;
                    let colsi = self.cols as int;
                    assert((n.y + 1) * colsi + n.x < rowsi * colsi) by (nonlinear_arith)
                        requires
                            0 <= n.x < colsi,
                            n.y + 1 < rowsi,
                            colsi >= 1,
                    ;
                    assert((n.y + 1) * colsi + n.x == i + colsi) by (nonlinear_arith)
                        requires
                            i as int == n.y * colsi + n.x,
                    ;
                }
                r = i + self.cols;
            }
            Direction::Left => {
                r = i - 1;
            }
            Direction::Right => {
                proof {
                    let rowsi = self.rows as int;
                    let colsi = self.cols as int;
                    assert(n.y * colsi + n.x + 1 <= (rowsi - 1) * colsi + colsi - 1)
                        by (nonlinear_arith)
                        requires
                            0 <= n.x,
                            n.x + 1 < colsi,
                            0 <= n.y < rowsi,
                    ;
                    assert((rowsi - 1) * colsi + colsi - 1 == rowsi * colsi - 1)
                        by (nonlinear_arith);
                }
                r = i + 1;
            }
        }
        r
    }

    /// Move the root to its neighbour in direction `dir`: the old root is
    /// hung below the new one and the new root's own parent link is
    /// cleared.  This reverses a single edge at the tree's frontier, so
    /// the structure stays a spanning tree of adjacent cells with a single
    /// root.
    pub fn relocate_root(&mut self, dir: Direction)
        requires
            old(self).wf(),
            old(self).dir_in_bounds(old(self).root as int, dir),
        ensures
            final(self).wf(),
            final(self).relocated_from(*old(self), dir),
    {
        let orf = self.root;
        let nrf = self.neighbor_index(orf, dir);
        proof {
            lemma_neighbor_coords(*old(self), orf as int, dir);
            assert(nrf != orf);
        }
        let mut onode = self.nodes[orf];
        onode.parent = Some(nrf);
        self.nodes.set(orf, onode);
        let mut nnode = self.nodes[nrf];
        nnode.parent = None;
        self.nodes.set(nrf, nnode);
        self.root = nrf;
        proof {
            let len = self.nodes@.len() as int;
            let ori = orf as int;
            let nri = nrf as int;
            let om = *old(self);
            assert(self.parents() =~= om.parents().update(ori, Some(nrf)).update(nri, None));
            // coordinates are untouched, so adjacency judgments carry over
            assert forall|i: int| 0 <= i < len implies (#[trigger] self.nodes@[i]).x
                == om.nodes@[i].x && self.nodes@[i].y == om.nodes@[i].y by {}
            assert forall|i: int|
                0 <= i < len && (#[trigger] self.nodes@[i].parent) is Some implies {
                let p = self.nodes@[i].parent->0 as int;
                0 <= p < len && self.adjacent_ids(i, p)
            } by {
                if i == ori {
                    assert(self.nodes@[i].parent == Some(nrf));
                    assert(self.adjacent_ids(ori, nri)) by {
                        lemma_neighbor_coords(om, ori, dir);
                    }
                } else {
                    assert(om.nodes@[i].parent is Some);
                    assert(om.adjacent_ids(i, om.nodes@[i].parent->0 as int));
                }
            }
            assert forall|i: int| 0 <= i < len && i != self.root implies (
            #[trigger] self.nodes@[i].parent) is Some by {
                if i != ori {
                    assert(self.nodes@[i].parent == om.nodes@[i].parent);
                }
            }
            assert forall|i: int| 0 <= i < len implies #[trigger] self.node_connected(i) by {
                assert(om.node_connected(i));
                let fuel = choose|fuel: nat| om.reaches_root(i, fuel);
                lemma_reroot_reaches(om.parents(), orf, nrf, i, fuel);
                assert(self.reaches_root(i, (fuel + 1) as nat));
            }
        }
    }

    /// Whether the root may step in direction `d` under the given
    /// observer exclusion.
    fn dir_ok(&self, d: Direction, player: Option<(i64, i64)>) -> (b: bool)
        requires
            self.wf(),
            Maze::player_in_range(player),
        ensures
            b == self.dir_available(d, player),
    {
        let n = self.nodes[self.root];
        proof {
            assert(self.nodes@[self.root as int].x < self.cols && self.nodes@[self.root as int].y
                < self.rows);
        }
        let in_bounds = match d {
            Direction::Up => n.y > 0,
            Direction::Down => n.y + 1 < self.rows,
            Direction::Left => n.x > 0,
            Direction::Right => n.x + 1 < self.cols,
        };
        assert(in_bounds == self.dir_in_bounds(self.root as int, d));
        if !in_bounds {
            return false;
        }
        match player {
            None => true,
            Some(p) => {
                let pos = self.node_position(self.root);
                let (sx, sy): (i64, i64) = match d {
                    Direction::Up => (0, -1),
                    Direction::Down => (0, 1),
                    Direction::Left => (-1, 0),
                    Direction::Right => (1, 0),
                };
                let off: i64 = 2 * (self.cell_size as i64);
                proof {
                    assert(-0x20000 <= sx * off <= 0x20000 && -0x20000 <= sy * off <= 0x20000)
                        by (nonlinear_arith)
                        requires
                            -1 <= sx <= 1,
                            -1 <= sy <= 1,
                            0 <= off <= 0x20000,
                    ;
                    assert(sx * off == 2 * self.cell_size * d.step_x() && sy * off == 2
                        * self.cell_size * d.step_y()) by (nonlinear_arith)
                        requires
                            sx == d.step_x(),
                            sy == d.step_y(),
                            off == 2 * self.cell_size,
                    ;
                }
                let qx: i64 = pos.0 + sx * off;
                let qy: i64 = pos.1 + sy * off;
                let dx: i128 = qx as i128 - p.0 as i128;
                let dy: i128 = qy as i128 - p.1 as i128;
                proof {
                    assert((self.view_distance as int) * (self.view_distance as int)
                        <= 0x4000_0000 * 0x4000_0000) by (nonlinear_arith)
                        requires
                            0 <= self.view_distance <= 0x4000_0000,
                    ;
                    assert(0 <= dx * dx <= 0x2_0000_0000_0000 * 0x2_0000_0000_0000 && 0 <= dy * dy
                        <= 0x2_0000_0000_0000 * 0x2_0000_0000_0000) by (nonlinear_arith)
                        requires
                            -0x2_0000_0000_0000 <= dx <= 0x2_0000_0000_0000,
                            -0x2_0000_0000_0000 <= dy <= 0x2_0000_0000_0000,
                    ;
                }
                let vv: i128 = 4 * ((self.view_distance as i128) * (self.view_distance as i128));
                dx * dx + dy * dy > vv
            },
        }
    }

    /// The subset of directions in which the root may relocate, in the
    /// fixed order Up, Down, Left, Right.  A step must stay inside the
    /// grid; when an observer position is supplied, steps whose target
    /// cell lies within `view_distance` of the observer are excluded, so
    /// the maze never morphs right under the observer.  An empty result is
    /// an expected condition, not an error.
    pub fn available_directions(&self, player: Option<(i64, i64)>) -> (dirs: Vec<Direction>)
        requires
            self.wf(),
            Maze::player_in_range(player),
        ensures
            dirs@ == self.available_seq(player),
    {
        let mut dirs: Vec<Direction> = Vec::new();
        if self.dir_ok(Direction::Up, player) {
            dirs.push(Direction::Up);
        }
        if self.dir_ok(Direction::Down, player) {
            dirs.push(Direction::Down);
        }
        if self.dir_ok(Direction::Left, player) {
            dirs.push(Direction::Left);
        }
        if self.dir_ok(Direction::Right, player) {
            dirs.push(Direction::Right);
        }
        proof {
            assert(dirs@ =~= self.available_seq(player));
        }
        dirs
    }
}

/// Derive the cell size from the viewport: the largest whole number of
/// world units per cell such that the grid fits both dimensions.
pub fn cell_size_for(viewport_w: u32, viewport_h: u32, shape: MazeShape) -> (c: u32)
    requires
        1 <= shape.cols <= 4096,
        1 <= shape.rows <= 4096,
    ensures
        c as int == ({
            let wq = viewport_w as int / shape.cols as int;
            let hq = viewport_h as int / shape.rows as int;
            if wq <= hq {
                wq
            } else {
                hq
            }
        }),
{
    let wq = viewport_w / (shape.cols as u32);
    let hq = viewport_h / (shape.rows as u32);
    if wq <= hq {
        wq
    } else {
        hq
    }
}

/// The neighbour index of an in-bounds step stays on the grid, and its
/// node records the stepped coordinates.
pub proof fn lemma_neighbor_coords(m: Maze, i: int, d: Direction)
    requires
        m.wf(),
        0 <= i < m.nodes@.len(),
        m.dir_in_bounds(i, d),
    ensures
        ({
            let p = m.neighbor_id(i, d);
            &&& 0 <= p < m.nodes@.len()
            &&& m.nodes@[p].x == m.nodes@[i].x + d.step_x()
            &&& m.nodes@[p].y == m.nodes@[i].y + d.step_y()
        }),
{
    let rowsi = m.rows as int;
    let colsi = m.cols as int;
    let n = m.nodes@[i];
    let p = m.neighbor_id(i, d);
    assert(0 <= p < rowsi * colsi) by (nonlinear_arith)
        requires
            p == (n.y + d.step_y()) * colsi + (n.x + d.step_x()),
            0 <= n.x + d.step_x() < colsi,
            0 <= n.y + d.step_y() < rowsi,
            colsi >= 1,
    ;
    lemma_id_unique(
        colsi,
        m.nodes@[p].x as int,
        m.nodes@[p].y as int,
        n.x + d.step_x(),
        n.y + d.step_y(),
    );
}

/// Law: exactly one node, the root, lacks a parent.
pub proof fn lemma_single_root_law(m: Maze)
    requires
        m.wf(),
    ensures
        m.nodes@[m.root as int].parent is None,
        forall|i: int|
            0 <= i < m.nodes@.len() && i != m.root ==> (#[trigger] m.nodes@[i].parent) is Some,
{
}

/// Law: following parent links from any node terminates at the root
/// within `rows * cols` steps, so the parent relation is acyclic and the
/// tree is connected.
pub proof fn lemma_chain_terminates(m: Maze, i: int)
    requires
        m.wf(),
        0 <= i < m.nodes@.len(),
    ensures
        m.reaches_root(i, (m.rows * m.cols) as nat),
{
    assert(m.node_connected(i));
    let fuel = choose|fuel: nat| m.reaches_root(i, fuel);
    lemma_reaches_within_size(m.parents(), m.root as int, i, fuel);
}

/// Law: every tree edge joins cells whose grid indices differ by exactly
/// one in one axis and zero in the other.
pub proof fn lemma_edges_adjacent(m: Maze, i: int)
    requires
        m.wf(),
        0 <= i < m.nodes@.len(),
        m.nodes@[i].parent is Some,
    ensures
        ({
            let p = m.nodes@[i].parent->0 as int;
            0 <= p < m.nodes@.len() && m.adjacent_ids(i, p)
        }),
{
}

} // verus!
