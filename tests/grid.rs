use pathfinding::fixed_demo_label;
use pathfinding::grid::OccupancyGrid;
use pathfinding::pos2::Pos2;
use pathfinding::stage::{a_star_stage, fill_shapes, shape_fits, stage_grid, CircleParams, RectParams, ShapeParams, Stage};

#[test]
fn mark_rectangle_then_clear_blocks_nothing() {
    let mut g = OccupancyGrid::new();
    g.mark_rectangle(2, 3, 4, 5);
    assert!(g.is_blocked(&Pos2::new(2, 3)));
    assert!(g.is_blocked(&Pos2::new(6, 8)));
    g.clear();
    for x in 0..10 {
        for y in 0..10 {
            assert!(!g.is_blocked(&Pos2::new(x, y)));
        }
    }
    assert!(g.cells.is_empty());
}

#[test]
fn rectangle_covers_inclusive_bounds() {
    let mut g = OccupancyGrid::new();
    g.mark_rectangle(30, 40, 19, 0);
    assert_eq!(g.cells.len(), 20);
    assert!(g.is_blocked(&Pos2::new(30, 40)));
    assert!(g.is_blocked(&Pos2::new(49, 40)));
    assert!(!g.is_blocked(&Pos2::new(50, 40)));
    assert!(!g.is_blocked(&Pos2::new(30, 41)));
}

#[test]
fn negative_side_marks_nothing() {
    let mut g = OccupancyGrid::new();
    g.mark_rectangle(0, 0, -1, 3);
    assert!(g.cells.is_empty());
}

#[test]
fn blocking_twice_keeps_one_entry() {
    let mut g = OccupancyGrid::new();
    g.block(Pos2::new(1, 2));
    g.block(Pos2::new(1, 2));
    assert_eq!(g.cells.len(), 1);
}

#[test]
fn circle_of_zero_radius_marks_its_centre_cell() {
    let mut g = OccupancyGrid::new();
    g.mark_circle(5, 5, 0, 0);
    assert_eq!(g.cells.len(), 1);
    assert!(g.is_blocked(&Pos2::new(5, 5)));
    assert!(!g.is_blocked(&Pos2::new(4, 4)));
}

#[test]
fn circle_of_radius_one_stays_in_its_box() {
    let mut g = OccupancyGrid::new();
    g.mark_circle(5, 5, 1, 1);
    assert_eq!(g.cells.len(), 8);
    for (x, y) in [(4, 4), (4, 5), (4, 6), (5, 4), (5, 5), (5, 6), (6, 4), (6, 5)] {
        assert!(g.is_blocked(&Pos2::new(x, y)));
    }
    for (x, y) in [(6, 6), (3, 4), (3, 5), (4, 3), (5, 3)] {
        assert!(!g.is_blocked(&Pos2::new(x, y)));
    }
}

#[test]
fn circle_marks_cells_of_its_box_with_a_corner_inside() {
    // Radius 2.5 about (10, 10): ceil(2.5) = 3 and floor(2.5 * 2.5) = 6.
    let mut g = OccupancyGrid::new();
    g.mark_circle(10, 10, 3, 6);
    let mut expected = 0;
    for x in 0..20i64 {
        for y in 0..20i64 {
            let in_box = (7..=13).contains(&x) && (7..=13).contains(&y);
            let inside = in_box
                && [(x, y), (x + 1, y), (x, y + 1), (x + 1, y + 1)]
                    .iter()
                    .any(|&(px, py)| (px - 10) * (px - 10) + (py - 10) * (py - 10) <= 6);
            assert_eq!(g.is_blocked(&Pos2::new(x, y)), inside);
            if inside {
                expected += 1;
            }
        }
    }
    assert_eq!(g.cells.len(), expected);
    assert!(g.is_blocked(&Pos2::new(12, 9)));
    assert!(g.is_blocked(&Pos2::new(7, 10)));
    assert!(!g.is_blocked(&Pos2::new(12, 12)));
    assert!(!g.is_blocked(&Pos2::new(6, 10)));
}

#[test]
fn a_star_stage_walls() {
    let g = a_star_stage();
    assert_eq!(g.cells.len(), 62);
    assert!(g.is_blocked(&Pos2::new(39, 37)));
    assert!(g.is_blocked(&Pos2::new(40, 49)));
    assert!(g.is_blocked(&Pos2::new(30, 40)));
    assert!(g.is_blocked(&Pos2::new(49, 49)));
    assert!(!g.is_blocked(&Pos2::new(35, 45)));
    assert!(!g.is_blocked(&Pos2::new(41, 36)));
}

#[test]
fn stages_and_shapes() {
    let shapes = vec![
        ShapeParams::Rectangle(RectParams { x: 0, y: 0, width: 1, height: 1 }),
        ShapeParams::Circle(CircleParams { center_x: 10, center_y: 10, half: 0, radius_sq: 0 }),
    ];
    let g = fill_shapes(&shapes);
    assert_eq!(g.cells.len(), 5);
    assert!(shapes.iter().all(shape_fits));
    assert!(!shape_fits(&ShapeParams::Rectangle(RectParams { x: i64::MAX, y: 0, width: 1, height: 0 })));
    let generated = stage_grid(Stage::Generated, &shapes);
    assert_eq!(generated.cells.len(), 5);
    assert!(stage_grid(Stage::Office, &shapes).cells.is_empty());
    assert_eq!(stage_grid(Stage::AStar, &shapes).cells.len(), 62);
}

#[test]
fn positions() {
    let p = Pos2::new(3, -4);
    assert_eq!(p.to_tuple(), (3, -4));
    assert_eq!(Pos2::default(), Pos2::new(100, 100));
    assert_eq!(
        p.neighbors(),
        vec![Pos2::new(4, -4), Pos2::new(2, -4), Pos2::new(3, -3), Pos2::new(3, -5)]
    );
    assert!(Pos2::new(1, 9) < Pos2::new(2, 0));
}

#[test]
fn demo_label() {
    assert_eq!(fixed_demo_label(), "\u{1F5FA} Demo");
}
