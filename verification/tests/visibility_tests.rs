use maze_core::geometry::Rect;
use maze_core::maze::Maze;
use maze_core::maze::MazeShape;
use maze_core::visibility::VisibilityMap;
use maze_core::visibility::DIR_SCALE;
use maze_core::visibility::NUM_RAYS;
use maze_core::walls::synchronize_walls;

fn eight_directions() -> Vec<(i64, i64)> {
    // 45-degree increments starting at angle zero, components truncated
    // toward zero at the fixed-point scale
    let s = DIR_SCALE as f64;
    (0..8)
        .map(|i| {
            let a = (i as f64) * std::f64::consts::PI / 4.0;
            ((a.cos() * s) as i64, (a.sin() * s) as i64)
        })
        .collect()
}

fn circle_directions(n: usize) -> Vec<(i64, i64)> {
    let s = DIR_SCALE as f64;
    (0..n)
        .map(|i| {
            let a = (i as f64) * 2.0 * std::f64::consts::PI / (n as f64);
            ((a.cos() * s) as i64, (a.sin() * s) as i64)
        })
        .collect()
}

#[test]
fn open_space_rays_stop_exactly_at_the_view_distance() {
    // 8 rays from the centre with no walls in range: every returned point
    // lies at the full view distance of 1000 world units (2000 doubled)
    let dirs = eight_directions();
    let walls: Vec<Rect> = Vec::new();
    let mut map = VisibilityMap::new();
    map.update(0, 0, &dirs, &walls, 2000);
    assert_eq!(map.visible_points.len(), 8);
    for p in &map.visible_points {
        assert!(!p.hit);
        assert_eq!(p.dist, 2000);
    }
    // the four axis-aligned rays land exactly on the axes
    assert_eq!(
        (map.visible_points[0].x2, map.visible_points[0].y2),
        (2000, 0)
    );
    assert_eq!(
        (map.visible_points[2].x2, map.visible_points[2].y2),
        (0, 2000)
    );
    assert_eq!(
        (map.visible_points[4].x2, map.visible_points[4].y2),
        (-2000, 0)
    );
    assert_eq!(
        (map.visible_points[6].x2, map.visible_points[6].y2),
        (0, -2000)
    );
    // the diagonal rays land one rounding unit inside the circle
    assert_eq!(
        (map.visible_points[1].x2, map.visible_points[1].y2),
        (1414, 1414)
    );
}

#[test]
fn a_wall_stops_the_ray_at_its_near_face() {
    let dirs = vec![(DIR_SCALE, 0)];
    let walls = vec![Rect { cx2: 1000, cy2: 0, hx2: 100, hy2: 100 }];
    let mut map = VisibilityMap::new();
    map.update(0, 0, &dirs, &walls, 2000);
    assert_eq!(map.visible_points.len(), 1);
    let p = &map.visible_points[0];
    assert!(p.hit);
    assert_eq!(p.dist, 900);
    assert_eq!((p.x2, p.y2), (900, 0));
}

#[test]
fn a_diagonal_ray_hits_with_rounded_distance() {
    let d = eight_directions()[1];
    let walls = vec![Rect { cx2: 1100, cy2: 0, hx2: 100, hy2: 10000 }];
    let mut map = VisibilityMap::new();
    map.update(0, 0, &vec![d], &walls, 5000);
    let p = &map.visible_points[0];
    assert!(p.hit);
    // the near face sits at x = 1000: the exact parameter is
    // 1000 * DIR_SCALE / 707106, which floors to 1414
    assert_eq!(p.dist, 1414);
    assert_eq!((p.x2, p.y2), (999, 999));
}

#[test]
fn an_observer_on_a_wall_face_sees_through_it() {
    // degenerate cast: the ray starts exactly on the boundary, which
    // counts as no hit and falls back to the full view distance
    let dirs = vec![(DIR_SCALE, 0)];
    let walls = vec![Rect { cx2: 100, cy2: 0, hx2: 100, hy2: 100 }];
    let mut map = VisibilityMap::new();
    map.update(0, 0, &dirs, &walls, 2000);
    let p = &map.visible_points[0];
    assert!(!p.hit);
    assert_eq!(p.dist, 2000);
}

#[test]
fn a_wall_behind_the_observer_is_not_hit() {
    let dirs = vec![(DIR_SCALE, 0)];
    let walls = vec![Rect { cx2: -1000, cy2: 0, hx2: 100, hy2: 100 }];
    let mut map = VisibilityMap::new();
    map.update(0, 0, &dirs, &walls, 2000);
    assert!(!map.visible_points[0].hit);
    assert_eq!(map.visible_points[0].dist, 2000);
}

#[test]
fn the_nearest_of_several_walls_wins() {
    let dirs = vec![(DIR_SCALE, 0)];
    let walls = vec![
        Rect { cx2: 1500, cy2: 0, hx2: 100, hy2: 100 },
        Rect { cx2: 600, cy2: 0, hx2: 100, hy2: 100 },
        Rect { cx2: 1000, cy2: 0, hx2: 100, hy2: 100 },
    ];
    let mut map = VisibilityMap::new();
    map.update(0, 0, &dirs, &walls, 2000);
    let p = &map.visible_points[0];
    assert!(p.hit);
    assert_eq!(p.dist, 500);
}

#[test]
fn default_ray_count_covers_the_circle_within_the_view_distance() {
    let dirs = circle_directions(NUM_RAYS);
    let walls = vec![Rect { cx2: 500, cy2: 0, hx2: 50, hy2: 3000 }];
    let mut map = VisibilityMap::new();
    map.update(0, 0, &dirs, &walls, 2000);
    assert_eq!(map.visible_points.len(), NUM_RAYS);
    for p in &map.visible_points {
        assert!(0 <= p.dist && p.dist <= 2000);
        // the point itself stays within the view distance of the observer
        let d2 = p.x2 * p.x2 + p.y2 * p.y2;
        assert!(d2 <= 2000 * 2000);
    }
}

#[test]
fn fog_reveals_only_walls_near_a_visibility_point() {
    let m = Maze::new(MazeShape { cols: 3, rows: 3 }, 100, 80, 0);
    let walls = synchronize_walls(&m);
    let rects: Vec<Rect> = walls.iter().map(|w| w.rect).collect();
    let dirs = circle_directions(16);
    let mut map = VisibilityMap::new();
    // observer at the centre cell, seeing half a cell out
    map.update(0, 0, &dirs, &rects, 100);
    let revealed = map.revealed_walls(&walls, 100);
    assert_eq!(revealed.len(), walls.len());
    // every revealed wall really is near some sample point
    for (i, w) in walls.iter().enumerate() {
        let near = map.visible_points.iter().any(|p| {
            let dx = p.x2 - w.rect.cx2;
            let dy = p.y2 - w.rect.cy2;
            dx * dx + dy * dy < 100 * 100
        });
        assert_eq!(revealed[i], near);
    }
    // at least one wall of the centre cell is revealed, while the corner
    // cells' walls are too far from every sample to be revealed
    assert!(revealed.iter().any(|&b| b));
    for (i, w) in walls.iter().enumerate() {
        if (w.x, w.y) == (0, 0) || (w.x, w.y) == (0, 2) {
            assert!(!revealed[i], "far wall ({}, {}) should stay fogged", w.x, w.y);
        }
    }
}
