use maze_core::geometry::Direction;
use maze_core::maze::Maze;
use maze_core::maze::MazeShape;
use maze_core::walls::border_walls;
use maze_core::walls::synchronize_walls;
use maze_core::walls::Wall;

fn id(m: &Maze, x: usize, y: usize) -> usize {
    y * m.cols + x
}

fn has_wall(walls: &[Wall], x: usize, y: usize, dir: Direction) -> bool {
    walls.iter().any(|w| w.x == x && w.y == y && w.dir == dir)
}

fn side_exists(m: &Maze, x: usize, y: usize, dir: Direction) -> bool {
    match dir {
        Direction::Up => y > 0,
        Direction::Down => y + 1 < m.rows,
        Direction::Left => x > 0,
        Direction::Right => x + 1 < m.cols,
    }
}

fn degree(m: &Maze, i: usize) -> usize {
    let own = if m.nodes[i].parent.is_some() { 1 } else { 0 };
    let children = m
        .nodes
        .iter()
        .filter(|n| n.parent == Some(i))
        .count();
    own + children
}

#[test]
fn two_by_two_comb_leaves_exactly_one_closed_pair() {
    let m = Maze::new(MazeShape { cols: 2, rows: 2 }, 100, 80, 0);
    let walls = synchronize_walls(&m);
    // tree edges: (0,0)-(1,0), (1,0)-(1,1), (0,1)-(1,1); the only pair
    // without an edge is the left column, so only its two co-located
    // segments remain
    assert_eq!(walls.len(), 2);
    assert!(has_wall(&walls, 0, 0, Direction::Down));
    assert!(has_wall(&walls, 0, 1, Direction::Up));
    assert!(!has_wall(&walls, 0, 0, Direction::Right));
    assert!(!has_wall(&walls, 1, 0, Direction::Left));
}

#[test]
fn wall_geometry_sits_on_the_cell_boundary() {
    let m = Maze::new(MazeShape { cols: 2, rows: 2 }, 100, 80, 0);
    let walls = synchronize_walls(&m);
    let w = walls
        .iter()
        .find(|w| w.x == 0 && w.y == 0 && w.dir == Direction::Down)
        .unwrap();
    // node (0,0) sits at doubled (-100, -100); the wall toward (0,1) is
    // one half cell further down the row axis
    assert_eq!((w.rect.cx2, w.rect.cy2), (-100, 0));
    // thin across the corridor (cell - path), long along it (2*cell - path)
    assert_eq!((w.rect.hx2, w.rect.hy2), (120, 20));
}

#[test]
fn resync_without_mutation_is_identical() {
    let m = Maze::new(MazeShape { cols: 5, rows: 5 }, 64, 50, 0);
    let first = synchronize_walls(&m);
    let second = synchronize_walls(&m);
    assert_eq!(first, second);
}

#[test]
fn open_sides_match_tree_degree_after_relocations() {
    let mut m = Maze::new(MazeShape { cols: 3, rows: 3 }, 100, 80, 0);
    m.relocate_root(Direction::Left);
    m.relocate_root(Direction::Up);
    let walls = synchronize_walls(&m);
    for i in 0..m.nodes.len() {
        let n = &m.nodes[i];
        let mut open = 0;
        for dir in [Direction::Up, Direction::Down, Direction::Left, Direction::Right] {
            if side_exists(&m, n.x, n.y, dir) && !has_wall(&walls, n.x, n.y, dir) {
                open += 1;
            }
        }
        assert_eq!(open, degree(&m, i), "node ({}, {})", n.x, n.y);
    }
}

#[test]
fn relocation_opens_the_crossed_side_and_closes_the_stale_one() {
    // 3x3 grid: move the root from (2,2) to (1,2), then from (1,2) to
    // (1,1).  The second move crosses the (1,2)-(1,1) side, and (1,1)
    // no longer points at its old parent (2,1), so that side closes.
    let mut m = Maze::new(MazeShape { cols: 3, rows: 3 }, 100, 80, 0);
    m.relocate_root(Direction::Left);
    assert_eq!(m.root, id(&m, 1, 2));
    let before = synchronize_walls(&m);
    assert!(!has_wall(&before, 1, 1, Direction::Right));
    assert!(!has_wall(&before, 2, 1, Direction::Left));

    m.relocate_root(Direction::Up);
    assert_eq!(m.root, id(&m, 1, 1));
    let after = synchronize_walls(&m);
    // the wall between the old root and the new root is absent
    assert!(!has_wall(&after, 1, 2, Direction::Up));
    assert!(!has_wall(&after, 1, 1, Direction::Down));
    // the previously open side toward the new root's former parent is
    // walled again
    assert!(has_wall(&after, 1, 1, Direction::Right));
    assert!(has_wall(&after, 2, 1, Direction::Left));
}

#[test]
fn borders_frame_the_grid() {
    let m = Maze::new(MazeShape { cols: 2, rows: 2 }, 100, 80, 0);
    let borders = border_walls(&m);
    assert_eq!(borders.len(), 4);
    let (w, h, thin) = (200, 200, 20);
    assert_eq!(
        (borders[0].cx2, borders[0].cy2, borders[0].hx2, borders[0].hy2),
        (0, h, w + thin, thin)
    );
    assert_eq!(
        (borders[1].cx2, borders[1].cy2, borders[1].hx2, borders[1].hy2),
        (w, 0, thin, h + thin)
    );
    assert_eq!(
        (borders[2].cx2, borders[2].cy2, borders[2].hx2, borders[2].hy2),
        (0, -h, w + thin, thin)
    );
    assert_eq!(
        (borders[3].cx2, borders[3].cy2, borders[3].hx2, borders[3].hy2),
        (-w, 0, thin, h + thin)
    );
}

#[test]
fn full_grid_wall_count_matches_the_tree() {
    // rows*cols cells have 2*rows*cols - rows - cols interior side pairs;
    // a spanning tree opens rows*cols - 1 of them, each pair giving two
    // wall segments
    let m = Maze::new(MazeShape { cols: 6, rows: 4 }, 100, 80, 0);
    let walls = synchronize_walls(&m);
    let pairs = 2 * 6 * 4 - 6 - 4;
    let open = 6 * 4 - 1;
    assert_eq!(walls.len(), 2 * (pairs - open));
}
