use pathfinding::grid::OccupancyGrid;
use pathfinding::navmesh::NavMesh;
use pathfinding::pos2::Pos2;

fn mesh(min: (i64, i64), max: (i64, i64), blocked: &[(i64, i64)]) -> NavMesh {
    let mut m = NavMesh::default();
    m.set_grid_boundaries(Pos2::new(min.0, min.1), Pos2::new(max.0, max.1));
    let mut g = OccupancyGrid::new();
    for &(x, y) in blocked {
        g.block(Pos2::new(x, y));
    }
    m.set_space_lut(g);
    m
}

fn assert_walk(m: &NavMesh, path: &[Pos2], start: Pos2, goal: Pos2) {
    assert_eq!(path[0], start);
    assert_eq!(*path.last().unwrap(), goal);
    for w in path.windows(2) {
        let d = (w[0].x - w[1].x).abs() + (w[0].y - w[1].y).abs();
        assert_eq!(d, 1);
        assert!(m.is_in_bounds(&w[0]) && m.is_in_bounds(&w[1]));
    }
    for p in path {
        assert!(!m.space_lut.is_blocked(p));
    }
}

#[test]
fn same_cell_gives_single_cell_path() {
    let m = mesh((0, 0), (9, 9), &[(3, 3)]);
    let p = Pos2::new(5, 5);
    assert_eq!(m.a_star(p, p), Some(vec![p]));
    let outside = Pos2::new(50, -7);
    assert_eq!(m.a_star(outside, outside), Some(vec![outside]));
}

#[test]
fn blocked_start_or_goal_gives_none() {
    let m = mesh((0, 0), (9, 9), &[(0, 0), (9, 9)]);
    assert_eq!(m.a_star(Pos2::new(0, 0), Pos2::new(5, 5)), None);
    assert_eq!(m.a_star(Pos2::new(5, 5), Pos2::new(9, 9)), None);
    assert_eq!(m.a_star(Pos2::new(0, 0), Pos2::new(0, 0)), None);
}

#[test]
fn empty_ten_by_ten_corner_to_corner() {
    let m = mesh((0, 0), (9, 9), &[]);
    let start = Pos2::new(0, 0);
    let goal = Pos2::new(9, 9);
    let path = m.a_star(start, goal).unwrap();
    assert_eq!(path.len(), 19);
    assert_walk(&m, &path, start, goal);
}

#[test]
fn wall_forces_shortest_detour() {
    // A wall at x = 2 from y = 0 to y = 3 on a 5 x 5 grid: the route from
    // (0, 0) to (4, 0) goes round its top at y = 4.
    let m = mesh((0, 0), (4, 4), &[(2, 0), (2, 1), (2, 2), (2, 3)]);
    let start = Pos2::new(0, 0);
    let goal = Pos2::new(4, 0);
    let path = m.a_star(start, goal).unwrap();
    assert_eq!(path.len(), 13);
    assert_walk(&m, &path, start, goal);
    assert!(path.contains(&Pos2::new(2, 4)));
}

#[test]
fn enclosed_goal_gives_none() {
    let m = mesh((0, 0), (9, 9), &[(4, 5), (6, 5), (5, 4), (5, 6)]);
    assert_eq!(m.a_star(Pos2::new(0, 0), Pos2::new(5, 5)), None);
    // A goal in a corner is enclosed by two blocked cells and the bounds.
    let c = mesh((0, 0), (9, 9), &[(1, 0), (0, 1)]);
    assert_eq!(c.a_star(Pos2::new(5, 5), Pos2::new(0, 0)), None);
}

#[test]
fn cells_outside_bounds_are_never_used() {
    let m = mesh((0, 0), (9, 9), &[]);
    assert_eq!(m.a_star(Pos2::new(-1, 0), Pos2::new(3, 0)), None);
    assert_eq!(m.a_star(Pos2::new(3, 0), Pos2::new(10, 0)), None);
    // A wall across the whole width leaves no way round inside the bounds.
    let wall: Vec<(i64, i64)> = (0..10).map(|x| (x, 5)).collect();
    let w = mesh((0, 0), (9, 9), &wall);
    assert_eq!(w.a_star(Pos2::new(0, 0), Pos2::new(0, 9)), None);
}

#[test]
fn junction_waypoint_appears_once() {
    let m = mesh((0, 0), (9, 9), &[]);
    let start = Pos2::new(0, 0);
    let a = Pos2::new(5, 0);
    let b = Pos2::new(5, 5);
    let path = m.waypointed_a_star(start, vec![a, b]).unwrap();
    assert_eq!(path.iter().filter(|p| **p == a).count(), 1);
    assert_eq!(path.len(), 11);
    assert_walk(&m, &path, start, b);
}

#[test]
fn single_waypoint_matches_single_target() {
    let m = mesh((0, 0), (9, 9), &[(1, 0), (1, 1)]);
    let start = Pos2::new(0, 0);
    let goal = Pos2::new(3, 0);
    let through = m.waypointed_a_star(start, vec![goal]).unwrap();
    let direct = m.a_star(start, goal).unwrap();
    assert_eq!(through.len(), direct.len());
    assert_walk(&m, &through, start, goal);
}

#[test]
fn blocked_leg_end_gives_none() {
    let m = mesh((0, 0), (9, 9), &[(5, 5)]);
    let start = Pos2::new(0, 0);
    assert_eq!(m.waypointed_a_star(start, vec![Pos2::new(2, 2), Pos2::new(5, 5), Pos2::new(9, 9)]), None);
    assert_eq!(m.waypointed_a_star(Pos2::new(5, 5), vec![Pos2::new(2, 2)]), None);
}

#[test]
fn unreachable_leg_gives_none() {
    let wall: Vec<(i64, i64)> = (0..10).map(|x| (x, 5)).collect();
    let m = mesh((0, 0), (9, 9), &wall);
    assert_eq!(m.waypointed_a_star(Pos2::new(0, 0), vec![Pos2::new(3, 3), Pos2::new(3, 8)]), None);
}

#[test]
fn empty_waypoint_list_gives_none() {
    let m = mesh((0, 0), (9, 9), &[]);
    assert_eq!(m.waypointed_a_star(Pos2::new(0, 0), Vec::new()), None);
}

#[test]
fn repeated_waypoint_adds_nothing() {
    let m = mesh((0, 0), (9, 9), &[]);
    let start = Pos2::new(0, 0);
    let a = Pos2::new(2, 0);
    let path = m.waypointed_a_star(start, vec![a, a]).unwrap();
    assert_eq!(path, vec![Pos2::new(0, 0), Pos2::new(1, 0), Pos2::new(2, 0)]);
}

#[test]
fn boundaries_and_lookup_setters() {
    let mut m = NavMesh::default();
    assert_eq!(m.min, Pos2::new(100, 100));
    assert_eq!(m.max, Pos2::new(100, 100));
    m.set_grid_boundaries(Pos2::new(-2, -3), Pos2::new(4, 5));
    assert!(m.is_in_bounds(&Pos2::new(-2, 5)));
    assert!(!m.is_in_bounds(&Pos2::new(5, 0)));
    assert!(!m.is_in_bounds(&Pos2::new(0, -4)));
    let mut g = OccupancyGrid::new();
    g.block(Pos2::new(1, 1));
    m.set_space_lut(g);
    assert!(m.space_lut.is_blocked(&Pos2::new(1, 1)));
    assert_eq!(m.min, Pos2::new(-2, -3));
}

#[test]
fn area_check() {
    let m = mesh((0, 0), (9, 9), &[]);
    assert!(m.area_fits());
    let huge = mesh((i64::MIN, i64::MIN), (i64::MAX, i64::MAX), &[]);
    assert!(!huge.area_fits());
    let empty = mesh((5, 5), (4, 4), &[]);
    assert!(empty.area_fits());
}

#[test]
fn path_of_length_one_on_a_one_cell_grid() {
    let m = NavMesh::default();
    let p = Pos2::new(100, 100);
    assert_eq!(m.a_star(p, p), Some(vec![p]));
    assert_eq!(m.a_star(p, Pos2::new(101, 100)), None);
}

#[test]
fn canonical_route_prefers_right_then_left_then_up_then_down() {
    let m = mesh((0, 0), (2, 2), &[]);
    let path = m.a_star(Pos2::new(0, 0), Pos2::new(2, 2)).unwrap();
    assert_eq!(
        path,
        vec![Pos2::new(0, 0), Pos2::new(1, 0), Pos2::new(2, 0), Pos2::new(2, 1), Pos2::new(2, 2)]
    );
    let back = m.a_star(Pos2::new(2, 2), Pos2::new(0, 0)).unwrap();
    assert_eq!(
        back,
        vec![Pos2::new(2, 2), Pos2::new(1, 2), Pos2::new(0, 2), Pos2::new(0, 1), Pos2::new(0, 0)]
    );
}

#[test]
fn equal_inputs_give_equal_routes() {
    let m = mesh((0, 0), (9, 9), &[(4, 2), (4, 3), (4, 4), (4, 5), (2, 7), (3, 7)]);
    let copy = m.clone();
    let a = m.a_star(Pos2::new(1, 4), Pos2::new(8, 4));
    let b = copy.a_star(Pos2::new(1, 4), Pos2::new(8, 4));
    assert!(a.is_some());
    assert_eq!(a, b);
    let w1 = m.waypointed_a_star(Pos2::new(0, 0), vec![Pos2::new(9, 0), Pos2::new(9, 9)]);
    let w2 = copy.waypointed_a_star(Pos2::new(0, 0), vec![Pos2::new(9, 0), Pos2::new(9, 9)]);
    assert_eq!(w1, w2);
}
