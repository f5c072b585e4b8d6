use vstd::prelude::*;

use crate::chain::lemma_mutual_parents_trap;
use crate::geometry::Direction;
use crate::geometry::Rect;
use crate::maze::lemma_neighbor_coords;
use crate::maze::Maze;

verus! {

/// One wall segment, identified by the cell whose side it closes and the
/// direction of that side, together with its collider rectangle in
/// doubled world units.  The same physical barrier between two cells is
/// derived twice, once from each side, as two co-located segments.
#[derive(Debug, Clone, Copy, PartialEq, Eq, Structural)]
pub struct Wall {
    pub x: usize,
    pub y: usize,
    pub dir: Direction,
    pub rect: Rect,
}

/// Whether a tree edge joins nodes `a` and `b`.  Both orientations are
/// checked: the synchronizer does not know which of the pair is the
/// parent.
pub open spec fn has_edge(m: Maze, a: int, b: int) -> bool {
    m.nodes@[a].parent == Some(b as usize) || m.nodes@[b].parent == Some(a as usize)
}

/// Whether the wall on side `d` of node `i` is present after a
/// synchronization pass: the side must have a neighbouring cell on the
/// grid, and no tree edge may cross it.
pub open spec fn wall_present(m: Maze, i: int, d: Direction) -> bool {
    m.dir_in_bounds(i, d) && !has_edge(m, i, m.neighbor_id(i, d))
}

/// The wall segment closing side `d` of node `i`: centred on the midpoint
/// between the two cells, `cell_size - path_thickness` across the
/// corridor and `2 * cell_size - path_thickness` along it.
pub open spec fn wall_for(m: Maze, i: int, d: Direction) -> Wall {
    Wall {
        x: m.nodes@[i].x,
        y: m.nodes@[i].y,
        dir: d,
        rect: Rect {
            cx2: (m.pos2_x(i) + d.step_x() * m.cell_size) as i64,
            cy2: (m.pos2_y(i) + d.step_y() * m.cell_size) as i64,
            hx2: (if d.step_x() == 0 {
                2 * m.cell_size - m.path_thickness
            } else {
                m.cell_size - m.path_thickness
            }) as i64,
            hy2: (if d.step_x() == 0 {
                m.cell_size - m.path_thickness
            } else {
                2 * m.cell_size - m.path_thickness
            }) as i64,
        },
    }
}

/// The wall segments contributed by node `i`, in the fixed side order.
pub open spec fn node_walls(m: Maze, i: int) -> Seq<Wall> {
    let l: Seq<Wall> = if wall_present(m, i, Direction::Left) {
        seq![wall_for(m, i, Direction::Left)]
    } else {
        Seq::empty()
    };
    let r: Seq<Wall> = if wall_present(m, i, Direction::Right) {
        seq![wall_for(m, i, Direction::Right)]
    } else {
        Seq::empty()
    };
    let u: Seq<Wall> = if wall_present(m, i, Direction::Up) {
        seq![wall_for(m, i, Direction::Up)]
    } else {
        Seq::empty()
    };
    let dn: Seq<Wall> = if wall_present(m, i, Direction::Down) {
        seq![wall_for(m, i, Direction::Down)]
    } else {
        Seq::empty()
    };
    l + r + u + dn
}

/// The wall segments of the first `n` nodes.
pub open spec fn walls_upto(m: Maze, n: int) -> Seq<Wall>
    decreases n,
{
    if n <= 0 {
        Seq::empty()
    } else {
        walls_upto(m, n - 1) + node_walls(m, n - 1)
    }
}

/// The full wall set derived from the current tree, in node order: a
/// pure function of the maze, so re-deriving it without an intervening
/// mutation cannot change it.
pub open spec fn walls_spec(m: Maze) -> Seq<Wall> {
    walls_upto(m, m.nodes@.len() as int)
}

/// Whether the wall on side `d` of node `i` should be present, decided
/// from the live tree.
fn side_walled(m: &Maze, i: usize, d: Direction) -> (b: bool)
    requires
        m.wf(),
        i < m.nodes@.len(),
    ensures
        b == wall_present(*m, i as int, d),
{
    let n = m.nodes[i];
    proof {
        assert(m.nodes@[i as int].x < m.cols && m.nodes@[i as int].y < m.rows);
    }
    let in_bounds = match d {
        Direction::Up => n.y > 0,
        Direction::Down => n.y + 1 < m.rows,
        Direction::Left => n.x > 0,
        Direction::Right => n.x + 1 < m.cols,
    };
    assert(in_bounds == m.dir_in_bounds(i as int, d));
    if !in_bounds {
        return false;
    }
    let nb = m.neighbor_index(i, d);
    let parent_edge = match m.nodes[i].parent {
        Some(p) => p == nb,
        None => false,
    };
    let child_edge = match m.nodes[nb].parent {
        Some(p) => p == i,
        None => false,
    };
    !(parent_edge || child_edge)
}

/// The wall segment closing side `d` of node `i`.
fn wall_segment(m: &Maze, i: usize, d: Direction) -> (w: Wall)
    requires
        m.wf(),
        i < m.nodes@.len(),
        m.dir_in_bounds(i as int, d),
    ensures
        w == wall_for(*m, i as int, d),
{
    let n = m.nodes[i];
    let pos = m.node_position(i);
    let (sx, sy): (i64, i64) = match d {
        Direction::Up => (0, -1),
        Direction::Down => (0, 1),
        Direction::Left => (-1, 0),
        Direction::Right => (1, 0),
    };
    let cell = m.cell_size as i64;
    proof {
        assert(-0x10000 <= sx * cell <= 0x10000 && -0x10000 <= sy * cell <= 0x10000)
            by (nonlinear_arith)
            requires
                -1 <= sx <= 1,
                -1 <= sy <= 1,
                0 <= cell <= 0x10000,
        ;
        assert(sx * cell == d.step_x() * m.cell_size && sy * cell == d.step_y() * m.cell_size)
            by (nonlinear_arith)
            requires
                sx == d.step_x(),
                sy == d.step_y(),
                cell == m.cell_size,
        ;
    }
    let cx2: i64 = pos.0 + sx * cell;
    let cy2: i64 = pos.1 + sy * cell;
    let thin: i64 = (m.cell_size - m.path_thickness) as i64;
    let long: i64 = (2 * m.cell_size - m.path_thickness) as i64;
    let rect = if sx == 0 {
        Rect { cx2, cy2, hx2: long, hy2: thin }
    } else {
        Rect { cx2, cy2, hx2: thin, hy2: long }
    };
    Wall { x: n.x, y: n.y, dir: d, rect }
}

/// Rebuild the full wall set from the current tree: every grid-interior
/// side of every node carries a wall segment unless a tree edge crosses
/// it.  The set is rebuilt wholesale on every pass, never patched, so it
/// cannot drift from the tree under arbitrary root relocation.
#[verifier::rlimit(50)]
pub fn synchronize_walls(m: &Maze) -> (walls: Vec<Wall>)
    requires
        m.wf(),
    ensures
        walls@ == walls_spec(*m),
{
    let mut walls: Vec<Wall> = Vec::new();
    let mut i: usize = 0;
    while i < m.nodes.len()
        invariant
            m.wf(),
            i <= m.nodes@.len(),
            walls@ == walls_upto(*m, i as int),
        decreases m.nodes@.len() - i,
    {
        let ghost before = walls@;
        if side_walled(m, i, Direction::Left) {
            let w = wall_segment(m, i, Direction::Left);
            walls.push(w);
        }
        if side_walled(m, i, Direction::Right) {
            let w = wall_segment(m, i, Direction::Right);
            walls.push(w);
        }
        if side_walled(m, i, Direction::Up) {
            let w = wall_segment(m, i, Direction::Up);
            walls.push(w);
        }
        if side_walled(m, i, Direction::Down) {
            let w = wall_segment(m, i, Direction::Down);
            walls.push(w);
        }
        proof {
            assert(walls@ =~= before + node_walls(*m, i as int));
        }
        i += 1;
    }
    walls
}

/// The four border colliders that close off the outside of the grid,
/// in the order top, right, bottom, left.
pub fn border_walls(m: &Maze) -> (borders: Vec<Rect>)
    requires
        m.wf(),
    ensures
        borders@.len() == 4,
        borders@[0] == border_rect(*m, 0),
        borders@[1] == border_rect(*m, 1),
        borders@[2] == border_rect(*m, 2),
        borders@[3] == border_rect(*m, 3),
{
    let cell = m.cell_size as i64;
    proof {
        assert(0 <= m.cols * m.cell_size <= 4096 * 0x10000 && 0 <= m.rows * m.cell_size <= 4096
            * 0x10000) by (nonlinear_arith)
            requires
                0 <= m.cols <= 4096,
                0 <= m.rows <= 4096,
                0 <= m.cell_size <= 0x10000,
        ;
    }
    let w: i64 = (m.cols as i64) * cell;
    let h: i64 = (m.rows as i64) * cell;
    let thin: i64 = (m.cell_size - m.path_thickness) as i64;
    let mut borders: Vec<Rect> = Vec::new();
    borders.push(Rect { cx2: 0, cy2: h, hx2: w + thin, hy2: thin });
    borders.push(Rect { cx2: w, cy2: 0, hx2: thin, hy2: h + thin });
    borders.push(Rect { cx2: 0, cy2: -h, hx2: w + thin, hy2: thin });
    borders.push(Rect { cx2: -w, cy2: 0, hx2: thin, hy2: h + thin });
    borders
}

/// The border collider with index `k`: top, right, bottom and left of the
/// grid, half a cell beyond the outermost cell centres, as thin as a
/// wall.
pub open spec fn border_rect(m: Maze, k: int) -> Rect {
    let w = (m.cols * m.cell_size) as i64;
    let h = (m.rows * m.cell_size) as i64;
    let thin = (m.cell_size - m.path_thickness) as i64;
    if k == 0 {
        Rect { cx2: 0, cy2: h, hx2: (w + thin) as i64, hy2: thin }
    } else if k == 1 {
        Rect { cx2: w, cy2: 0, hx2: thin, hy2: (h + thin) as i64 }
    } else if k == 2 {
        Rect { cx2: 0, cy2: (-h) as i64, hx2: (w + thin) as i64, hy2: thin }
    } else {
        Rect { cx2: (-w) as i64, cy2: 0, hx2: thin, hy2: (h + thin) as i64 }
    }
}

/// `1` when the condition holds, `0` otherwise.
pub open spec fn b2i(b: bool) -> int {
    if b {
        1
    } else {
        0
    }
}

/// Whether side `d` of node `i` exists on the grid and is open (no wall):
/// exactly the sides crossed by a tree edge.
pub open spec fn side_open(m: Maze, i: int, d: Direction) -> bool {
    m.dir_in_bounds(i, d) && has_edge(m, i, m.neighbor_id(i, d))
}

/// Number of open sides of node `i`.
pub open spec fn open_side_count(m: Maze, i: int) -> int {
    b2i(side_open(m, i, Direction::Left)) + b2i(side_open(m, i, Direction::Right)) + b2i(
        side_open(m, i, Direction::Up),
    ) + b2i(side_open(m, i, Direction::Down))
}

/// Whether the neighbour on side `d` of node `i` is a child of `i`.
pub open spec fn child_on(m: Maze, i: int, d: Direction) -> bool {
    m.dir_in_bounds(i, d) && m.nodes@[m.neighbor_id(i, d)].parent == Some(i as usize)
}

/// Whether the parent of node `i` lies on side `d`.
pub open spec fn parent_on(m: Maze, i: int, d: Direction) -> bool {
    m.dir_in_bounds(i, d) && m.nodes@[i].parent == Some(m.neighbor_id(i, d) as usize)
}

/// Number of tree edges touching node `i`: its own parent edge, if any,
/// plus one edge per child.  Because tree edges only ever join adjacent
/// cells, counting over the four sides counts every edge.
pub open spec fn tree_degree(m: Maze, i: int) -> int {
    b2i(m.nodes@[i].parent is Some) + b2i(child_on(m, i, Direction::Left)) + b2i(
        child_on(m, i, Direction::Right),
    ) + b2i(child_on(m, i, Direction::Up)) + b2i(child_on(m, i, Direction::Down))
}

/// On each side, an open side is either the parent edge or a child edge,
/// never both: two nodes that were each other's parent would trap the
/// parent chain away from the root.
proof fn lemma_side_open_split(m: Maze, i: int, d: Direction)
    requires
        m.wf(),
        0 <= i < m.nodes@.len(),
    ensures
        b2i(side_open(m, i, d)) == b2i(parent_on(m, i, d)) + b2i(child_on(m, i, d)),
{
    if m.dir_in_bounds(i, d) {
        lemma_neighbor_coords(m, i, d);
        let p = m.neighbor_id(i, d);
        if parent_on(m, i, d) && child_on(m, i, d) {
            assert(m.node_connected(i));
            let fuel = choose|fuel: nat| m.reaches_root(i, fuel);
            assert(m.parents()[i] == m.nodes@[i].parent);
            assert(m.parents()[p] == m.nodes@[p].parent);
            assert(m.parents()[i]->0 as int == p);
            assert(m.parents()[p]->0 as int == i);
            lemma_mutual_parents_trap(m.parents(), m.root as int, i, p, fuel);
            // the trapped target would have to be the root, but both nodes
            // carry a parent link while the root carries none
            assert(false);
        }
    }
}

/// Whether the parent of node `i` lies on side `d` is decided by the
/// parent's coordinates alone.
proof fn lemma_parent_on_iff(m: Maze, i: int, d: Direction)
    requires
        m.wf(),
        0 <= i < m.nodes@.len(),
        m.nodes@[i].parent is Some,
    ensures
        parent_on(m, i, d) <==> (m.dir_in_bounds(i, d) && m.nodes@[m.nodes@[i].parent->0 as int].x
            as int == m.nodes@[i].x + d.step_x() && m.nodes@[m.nodes@[i].parent->0 as int].y
            as int == m.nodes@[i].y + d.step_y()),
{
    let pu = m.nodes@[i].parent->0;
    let p = pu as int;
    assert(0 <= p < m.nodes@.len() && m.adjacent_ids(i, p));
    if m.dir_in_bounds(i, d) {
        lemma_neighbor_coords(m, i, d);
        let nb = m.neighbor_id(i, d);
        assert(0 <= nb < m.nodes@.len());
        if parent_on(m, i, d) {
            assert(pu == nb as usize);
            assert(p == nb);
        }
        if m.nodes@[p].x as int == m.nodes@[i].x + d.step_x() && m.nodes@[p].y as int
            == m.nodes@[i].y + d.step_y() {
            // equal coordinates force equal indices
            assert(p == m.nodes@[p].y * m.cols + m.nodes@[p].x);
            assert(nb == m.nodes@[nb].y * m.cols + m.nodes@[nb].x);
            assert(p == nb);
            assert(m.nodes@[i].parent == Some(nb as usize));
        }
    }
}

/// The parent of node `i`, when it has one, lies on exactly one side.
proof fn lemma_parent_side_count(m: Maze, i: int)
    requires
        m.wf(),
        0 <= i < m.nodes@.len(),
    ensures
        b2i(parent_on(m, i, Direction::Left)) + b2i(parent_on(m, i, Direction::Right)) + b2i(
            parent_on(m, i, Direction::Up),
        ) + b2i(parent_on(m, i, Direction::Down)) == b2i(m.nodes@[i].parent is Some),
{
    let n = m.nodes@[i];
    if n.parent is Some {
        let p = n.parent->0 as int;
        assert(0 <= p < m.nodes@.len() && m.adjacent_ids(i, p));
        lemma_parent_on_iff(m, i, Direction::Left);
        lemma_parent_on_iff(m, i, Direction::Right);
        lemma_parent_on_iff(m, i, Direction::Up);
        lemma_parent_on_iff(m, i, Direction::Down);
        let x = n.x as int;
        let y = n.y as int;
        let px = m.nodes@[p].x as int;
        let py = m.nodes@[p].y as int;
        if px == x - 1 && py == y {
            assert(m.dir_in_bounds(i, Direction::Left));
            assert(parent_on(m, i, Direction::Left));
        } else if px == x + 1 && py == y {
            assert(m.dir_in_bounds(i, Direction::Right));
            assert(parent_on(m, i, Direction::Right));
        } else if px == x && py == y - 1 {
            assert(m.dir_in_bounds(i, Direction::Up));
            assert(parent_on(m, i, Direction::Up));
        } else {
            assert(px == x && py == y + 1);
            assert(m.dir_in_bounds(i, Direction::Down));
            assert(parent_on(m, i, Direction::Down));
        }
    }
}

/// Law: after synchronization, the number of open (wall-free) sides of
/// every node equals the number of tree edges touching it.  In steady
/// state this count is one for every node: each non-root node has its
/// parent edge, and the root keeps the edge to its former parent, which
/// became its child when the root relocated.
pub proof fn lemma_wall_edge_correspondence(m: Maze, i: int)
    requires
        m.wf(),
        0 <= i < m.nodes@.len(),
    ensures
        open_side_count(m, i) == tree_degree(m, i),
{
    lemma_side_open_split(m, i, Direction::Left);
    lemma_side_open_split(m, i, Direction::Right);
    lemma_side_open_split(m, i, Direction::Up);
    lemma_side_open_split(m, i, Direction::Down);
    lemma_parent_side_count(m, i);
}

/// A present side's wall segment appears among the first `n` nodes'
/// segments as soon as its node is covered.
proof fn lemma_walls_upto_member(m: Maze, n: int, i: int, d: Direction)
    requires
        wall_present(m, i, d),
        0 <= i < n,
        n <= m.nodes@.len(),
    ensures
        walls_upto(m, n).contains(wall_for(m, i, d)),
    decreases n,
{
    if i == n - 1 {
        let s = node_walls(m, i);
        let w = wall_for(m, i, d);
        let cl: int = if wall_present(m, i, Direction::Left) {
            1
        } else {
            0
        };
        let cr: int = if wall_present(m, i, Direction::Right) {
            1
        } else {
            0
        };
        let cu: int = if wall_present(m, i, Direction::Up) {
            1
        } else {
            0
        };
        match d {
            Direction::Left => {
                assert(s[0] == w);
            },
            Direction::Right => {
                assert(s[cl] == w);
            },
            Direction::Up => {
                assert(s[cl + cr] == w);
            },
            Direction::Down => {
                assert(s[cl + cr + cu] == w);
            },
        }
        assert(s.contains(w));
        assert(walls_upto(m, n) == walls_upto(m, n - 1) + s);
        let j = choose|j: int| 0 <= j < s.len() && s[j] == w;
        assert(walls_upto(m, n)[walls_upto(m, n - 1).len() + j] == w);
        assert(walls_upto(m, n).contains(w));
    } else {
        lemma_walls_upto_member(m, n - 1, i, d);
        let w = wall_for(m, i, d);
        let j = choose|j: int| 0 <= j < walls_upto(m, n - 1).len() && #[trigger] walls_upto(
            m,
            n - 1,
        )[j] == w;
        assert(walls_upto(m, n)[j] == w);
        assert(walls_upto(m, n).contains(w));
    }
}

/// Every segment among the first `n` nodes' segments closes a present
/// side of one of those nodes.
proof fn lemma_walls_upto_only_members(m: Maze, n: int, w: Wall)
    requires
        walls_upto(m, n).contains(w),
        n <= m.nodes@.len(),
    ensures
        exists|i: int, d: Direction|
            0 <= i < n && #[trigger] wall_present(m, i, d) && w == wall_for(m, i, d),
    decreases n,
{
    if n > 0 {
        if node_walls(m, n - 1).contains(w) {
            assert(exists|d: Direction| #[trigger] wall_present(m, n - 1, d) && w == wall_for(m, n - 1, d));
        } else {
            assert(walls_upto(m, n - 1).contains(w));
            lemma_walls_upto_only_members(m, n - 1, w);
        }
    }
}

/// Law: the derived wall set holds the segment for side `d` of node `i`
/// exactly when that side is present — on the grid and not crossed by a
/// tree edge.
pub proof fn lemma_walls_spec_member(m: Maze, i: int, d: Direction)
    requires
        m.wf(),
        0 <= i < m.nodes@.len(),
    ensures
        walls_spec(m).contains(wall_for(m, i, d)) <==> wall_present(m, i, d),
{
    let len = m.nodes@.len() as int;
    if wall_present(m, i, d) {
        lemma_walls_upto_member(m, len, i, d);
    }
    if walls_spec(m).contains(wall_for(m, i, d)) {
        lemma_walls_upto_only_members(m, len, wall_for(m, i, d));
        let (i2, d2) = choose|i2: int, d2: Direction|
            0 <= i2 < len && #[trigger] wall_present(m, i2, d2) && wall_for(m, i, d) == wall_for(
                m,
                i2,
                d2,
            );
        // the recorded cell coordinates and side pin down the node and
        // the direction
        assert(m.nodes@[i].x == m.nodes@[i2].x && m.nodes@[i].y == m.nodes@[i2].y);
        assert(i == m.nodes@[i].y * m.cols + m.nodes@[i].x);
        assert(i2 == m.nodes@[i2].y * m.cols + m.nodes@[i2].x);
        assert(i == i2 && d == d2);
    }
}

/// Law: relocating the root from cell `a` to its neighbour `b` opens the
/// side between them — the reversed edge makes it traversable — and, when
/// `b`'s former parent `c` is a third cell, closes the side between `b`
/// and `c` again: `b` no longer points at `c`, and `c` never pointed at
/// `b`.
pub proof fn lemma_relocation_wall_effect(m0: Maze, m1: Maze, d: Direction)
    requires
        m0.wf(),
        m1.wf(),
        m1.relocated_from(m0, d),
    ensures
        has_edge(m1, m0.root as int, m1.root as int),
        !wall_present(m1, m0.root as int, d),
        ({
            let b = m1.root as int;
            (m0.nodes@[b].parent is Some && m0.nodes@[b].parent->0 != m0.root) ==> !has_edge(
                m1,
                b,
                m0.nodes@[b].parent->0 as int,
            )
        }),
{
    let a = m0.root as int;
    let b = m1.root as int;
    assert(m1.nodes@[a].parent == Some(m1.root));
    assert(has_edge(m1, a, b));
    assert(m1.neighbor_id(a, d) == m0.neighbor_id(a, d));
    if m0.nodes@[b].parent is Some && m0.nodes@[b].parent->0 != m0.root {
        let c = m0.nodes@[b].parent->0 as int;
        assert(0 <= c < m0.nodes@.len() && m0.adjacent_ids(b, c));
        assert(c != b);
        assert(m1.nodes@[b].parent is None);
        assert(m1.nodes@[c].parent == m0.nodes@[c].parent);
        if m0.nodes@[c].parent == Some(b as usize) {
            // b and c would be each other's parent in the old tree, which
            // would cut b's chain off from the root
            assert(m0.node_connected(b));
            let fuel = choose|fuel: nat| m0.reaches_root(b, fuel);
            assert(m0.parents()[b] == m0.nodes@[b].parent);
            assert(m0.parents()[c] == m0.nodes@[c].parent);
            lemma_mutual_parents_trap(m0.parents(), m0.root as int, b, c, fuel);
        }
        assert(!has_edge(m1, b, c));
    }
}

/// Law: synchronizing twice in a row with no intervening tree mutation
/// yields the identical wall set — the derived walls are a function of
/// the maze alone.
pub proof fn lemma_sync_idempotent(m: Maze, w1: Seq<Wall>, w2: Seq<Wall>)
    requires
        w1 == walls_spec(m),
        w2 == walls_spec(m),
    ensures
        w1 == w2,
{
}

} // verus!
