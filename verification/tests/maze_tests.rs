use maze_core::geometry::Direction;
use maze_core::maze::cell_size_for;
use maze_core::maze::Maze;
use maze_core::maze::MazeShape;
use maze_core::walker::update_maze;
use maze_core::walker::MazeUpdateTimer;

fn id(m: &Maze, x: usize, y: usize) -> usize {
    y * m.cols + x
}

fn root_count(m: &Maze) -> usize {
    m.nodes.iter().filter(|n| n.parent.is_none()).count()
}

fn chain_length_to_root(m: &Maze, start: usize) -> usize {
    let mut i = start;
    let mut steps = 0;
    while let Some(p) = m.nodes[i].parent {
        i = p;
        steps += 1;
        assert!(steps <= m.rows * m.cols, "parent chain did not terminate");
    }
    assert_eq!(i, m.root);
    steps
}

#[test]
fn cell_size_matches_viewport() {
    let shape = MazeShape { cols: 15, rows: 15 };
    assert_eq!(cell_size_for(512, 512, shape), 34);
    assert_eq!(cell_size_for(512, 256, MazeShape { cols: 4, rows: 4 }), 64);
    assert_eq!(cell_size_for(300, 800, MazeShape { cols: 3, rows: 8 }), 100);
}

#[test]
fn initial_build_is_a_comb_with_far_corner_root() {
    let m = Maze::new(MazeShape { cols: 7, rows: 7 }, 50, 40, 150);
    assert_eq!(m.root, id(&m, 6, 6));
    assert_eq!(root_count(&m), 1);
    for y in 0..7 {
        for x in 0..7 {
            let n = &m.nodes[id(&m, x, y)];
            assert_eq!((n.x, n.y), (x, y));
            if x + 1 < 7 {
                assert_eq!(n.parent, Some(id(&m, x + 1, y)));
            } else if y + 1 < 7 {
                assert_eq!(n.parent, Some(id(&m, 6, y + 1)));
            } else {
                assert_eq!(n.parent, None);
            }
        }
    }
}

#[test]
fn initial_chains_terminate_within_rows_plus_cols() {
    let m = Maze::new(MazeShape { cols: 7, rows: 5 }, 50, 40, 150);
    for i in 0..m.nodes.len() {
        assert!(chain_length_to_root(&m, i) <= 7 + 5);
    }
}

#[test]
fn node_positions_are_centred_on_the_origin() {
    let m = Maze::new(MazeShape { cols: 7, rows: 7 }, 50, 40, 150);
    // doubled world units: node (6, 6) sits at world (150, 150)
    assert_eq!(m.node_position(id(&m, 6, 6)), (300, 300));
    assert_eq!(m.node_position(id(&m, 0, 0)), (-300, -300));
    assert_eq!(m.node_position(id(&m, 3, 3)), (0, 0));
}

#[test]
fn corner_targets_are_equidistant_from_a_centred_observer() {
    // from the corner root (6, 6) the Up target (6, 5) and the Left
    // target (5, 6) both lie sqrt(32500) ~ 180.28 world units from the
    // origin, so the exclusion admits or rejects them together
    let just_under = Maze::new(MazeShape { cols: 7, rows: 7 }, 50, 40, 180);
    assert_eq!(
        just_under.available_directions(Some((0, 0))),
        vec![Direction::Up, Direction::Left]
    );
    let just_over = Maze::new(MazeShape { cols: 7, rows: 7 }, 50, 40, 181);
    assert!(just_over.available_directions(Some((0, 0))).is_empty());
}

#[test]
fn walker_tick_relocates_the_cornered_root_up() {
    // grid 7 by 7, cell size 50: with the observer standing on the Left
    // target (5, 6), only Up remains available at the corner, so one
    // walker tick moves the root from (6, 6) to (6, 5) and the old root
    // now points at the new one.
    let mut m = Maze::new(MazeShape { cols: 7, rows: 7 }, 50, 40, 50);
    assert_eq!(m.root, id(&m, 6, 6));
    let observer = m.node_position(id(&m, 5, 6));
    assert_eq!(m.available_directions(Some(observer)), vec![Direction::Up]);
    let mut timer = MazeUpdateTimer::new(1);
    let moved = update_maze(&mut m, &mut timer, 1, Some(observer));
    assert_eq!(moved, Some(Direction::Up));
    assert_eq!(m.root, id(&m, 6, 5));
    assert_eq!(m.nodes[id(&m, 6, 6)].parent, Some(id(&m, 6, 5)));
    assert_eq!(m.nodes[id(&m, 6, 5)].parent, None);
}

#[test]
fn bounds_only_query_at_the_corner_yields_up_and_left() {
    let m = Maze::new(MazeShape { cols: 7, rows: 7 }, 50, 40, 200);
    let dirs = m.available_directions(None);
    assert_eq!(dirs, vec![Direction::Up, Direction::Left]);
}

#[test]
fn a_target_exactly_at_the_view_distance_is_excluded() {
    // with the observer level with the Up target (6, 5), that target lies
    // exactly 150 world units away and the Left target ~111.8: the
    // exclusion is strict, so at view distance 150 nothing is available
    // and a fired tick leaves the maze untouched
    let mut m = Maze::new(MazeShape { cols: 7, rows: 7 }, 50, 40, 150);
    let observer = (0, m.node_position(id(&m, 6, 5)).1);
    assert!(m.available_directions(Some(observer)).is_empty());
    let before = m.nodes.clone();
    let mut timer = MazeUpdateTimer::new(1);
    let moved = update_maze(&mut m, &mut timer, 5, Some(observer));
    assert_eq!(moved, None);
    assert_eq!(m.nodes, before);
    // one world unit less and the boundary target becomes available
    let narrower = Maze::new(MazeShape { cols: 7, rows: 7 }, 50, 40, 149);
    assert_eq!(
        narrower.available_directions(Some(observer)),
        vec![Direction::Up]
    );
}

#[test]
fn a_single_cell_maze_has_a_root_and_nowhere_to_go() {
    let mut m = Maze::new(MazeShape { cols: 1, rows: 1 }, 100, 80, 0);
    assert_eq!(m.root, 0);
    assert_eq!(m.nodes[0].parent, None);
    assert!(m.available_directions(None).is_empty());
    let mut timer = MazeUpdateTimer::new(1);
    assert_eq!(update_maze(&mut m, &mut timer, 1, None), None);
}

#[test]
fn a_ribbon_grid_chains_along_its_row() {
    let m = Maze::new(MazeShape { cols: 4096, rows: 1 }, 1, 0, 0);
    assert_eq!(m.root, 4095);
    assert_eq!(chain_length_to_root(&m, 0), 4095);
    assert_eq!(m.available_directions(None), vec![Direction::Left]);
}

#[test]
fn relocation_keeps_a_single_root_on_adjacent_cells() {
    let mut m = Maze::new(MazeShape { cols: 5, rows: 4 }, 100, 80, 0);
    let mut timer = MazeUpdateTimer::new(1);
    for _ in 0..200 {
        let moved = update_maze(&mut m, &mut timer, 1, None);
        assert!(moved.is_some(), "some direction is always in bounds");
        assert_eq!(root_count(&m), 1);
        assert!(m.nodes[m.root].parent.is_none());
        for i in 0..m.nodes.len() {
            if let Some(p) = m.nodes[i].parent {
                let a = &m.nodes[i];
                let b = &m.nodes[p];
                let dx = a.x.abs_diff(b.x);
                let dy = a.y.abs_diff(b.y);
                assert_eq!(dx + dy, 1, "tree edge must join adjacent cells");
            }
            // connectivity and acyclicity: the chain reaches the root
            chain_length_to_root(&m, i);
        }
    }
}

#[test]
fn relocations_can_deepen_chains_beyond_rows_plus_cols() {
    // walking the root around a 3x3 grid can reshape the tree into a
    // single long path: the chain from the far corner then needs eight
    // steps, more than rows + cols, but still under rows * cols
    let mut m = Maze::new(MazeShape { cols: 3, rows: 3 }, 100, 80, 0);
    for dir in [
        Direction::Left,
        Direction::Left,
        Direction::Up,
        Direction::Right,
        Direction::Right,
        Direction::Up,
        Direction::Left,
        Direction::Left,
    ] {
        m.relocate_root(dir);
    }
    assert_eq!(m.root, id(&m, 0, 0));
    let steps = chain_length_to_root(&m, id(&m, 2, 2));
    assert_eq!(steps, 8);
    assert!(steps > 3 + 3);
    assert!(steps <= 3 * 3);
}

#[test]
fn timer_accumulates_and_carries_the_remainder() {
    let mut t = MazeUpdateTimer::new(100);
    assert!(!t.tick(30));
    assert_eq!(t.elapsed_ms, 30);
    assert!(t.tick(80));
    assert_eq!(t.elapsed_ms, 10);
    assert!(t.tick(250));
    assert_eq!(t.elapsed_ms, 60);
    assert!(!t.tick(39));
    assert_eq!(t.elapsed_ms, 99);
    assert!(t.tick(1));
    assert_eq!(t.elapsed_ms, 0);
}

#[test]
fn range_query_returns_the_near_neighbourhood_in_index_order() {
    let m = Maze::new(MazeShape { cols: 3, rows: 3 }, 100, 80, 0);
    // cell centres sit at doubled coordinates 0 and +-200; a doubled
    // radius of 250 takes the centre cell and its four neighbours
    assert_eq!(m.nodes_in_range(0, 0, 250), vec![1, 3, 4, 5, 7]);
    // the comparison is strict: at exactly 200 the neighbours drop out
    assert_eq!(m.nodes_in_range(0, 0, 200), vec![4]);
    assert_eq!(m.nodes_in_range(0, 0, 0), Vec::<usize>::new());
}

#[test]
fn walker_does_nothing_before_the_period_elapses() {
    let mut m = Maze::new(MazeShape { cols: 3, rows: 3 }, 100, 80, 0);
    let before = m.nodes.clone();
    let mut timer = MazeUpdateTimer::new(1000);
    let moved = update_maze(&mut m, &mut timer, 10, None);
    assert_eq!(moved, None);
    assert_eq!(m.nodes, before);
    assert_eq!(m.root, id(&m, 2, 2));
}
