use vstd::prelude::*;
use crate::grid::{circle_cells, rect_cells, OccupancyGrid};
use crate::pos2::Pos2;

verus! {

/// The obstacle layouts the demo offers.
#[derive(Clone, Copy, PartialEq, Eq, Structural, Debug)]
pub enum Stage {
    AStar,
    Office,
    Generated,
}

/// How many obstacles a generated stage holds.
#[derive(Clone, Copy, PartialEq, Eq, Structural, Debug)]
pub enum Generated {
    N(usize),
}

/// The kind of obstacle a generated stage places.
#[derive(Clone, Copy, PartialEq, Eq, Structural, Debug)]
pub enum Obstacle {
    Rectangular,
    Circular,
}

/// The cells `[x, x + width] × [y, y + height]`.
#[derive(Clone, Copy, PartialEq, Eq, Structural, Debug)]
pub struct RectParams {
    pub x: i64,
    pub y: i64,
    pub width: i64,
    pub height: i64,
}

/// The cells of the box within `half` of the centre on each axis that have a
/// corner within `radius_sq.sqrt()` of the centre; for a radius `r`, `half`
/// is `ceil(r)` and `radius_sq` is `floor(r²)`.
#[derive(Clone, Copy, PartialEq, Eq, Structural, Debug)]
pub struct CircleParams {
    pub center_x: i64,
    pub center_y: i64,
    pub half: i64,
    pub radius_sq: i64,
}

#[derive(Clone, Copy, PartialEq, Eq, Structural, Debug)]
pub enum ShapeParams {
    Circle(CircleParams),
    Rectangle(RectParams),
}

/// The shape's coordinates leave room for the arithmetic of marking it.
pub open spec fn shape_ok(s: ShapeParams) -> bool {
    match s {
        ShapeParams::Rectangle(r) => r.x + r.width <= i64::MAX && r.y + r.height <= i64::MAX,
        ShapeParams::Circle(c) => {
            &&& 0 <= c.half <= 0x1000_0000_0000_0000
            &&& i64::MIN + c.half <= c.center_x < i64::MAX - c.half
            &&& i64::MIN + c.half <= c.center_y < i64::MAX - c.half
        },
    }
}

pub open spec fn shape_cells(s: ShapeParams) -> Set<Pos2> {
    match s {
        ShapeParams::Rectangle(r) => rect_cells(r.x as int, r.y as int, r.width as int, r.height as int),
        ShapeParams::Circle(c) => circle_cells(c.center_x as int, c.center_y as int, c.half as int, c.radius_sq as int),
    }
}

/// The cells that some shape of `shapes` covers.
pub open spec fn shapes_cells(shapes: Seq<ShapeParams>) -> Set<Pos2>
    decreases shapes.len(),
{
    if shapes.len() == 0 {
        Set::empty()
    } else {
        shapes_cells(shapes.drop_last()).union(shape_cells(shapes.last()))
    }
}

/// The cells of the fixed A* stage: a wall two cells thick at x = 39..40,
/// y = 37..49, and two horizontal walls from x = 30 to 49 at y = 40 and y = 49.
pub open spec fn a_star_stage_cells() -> Set<Pos2> {
    rect_cells(39, 37, 1, 12).union(rect_cells(30, 40, 19, 0)).union(rect_cells(30, 49, 19, 0))
}

impl OccupancyGrid {
    pub fn mark_shape(&mut self, shape: &ShapeParams)
        requires
            shape_ok(*shape),
        ensures
            final(self)@ == old(self)@.union(shape_cells(*shape)),
    {
        match shape {
            ShapeParams::Rectangle(r) => self.mark_rectangle(r.x, r.y, r.width, r.height),
            ShapeParams::Circle(c) => self.mark_circle(c.center_x, c.center_y, c.half, c.radius_sq),
        }
    }
}

/// Whether marking `shape` stays within the integer range.
pub fn shape_fits(shape: &ShapeParams) -> (r: bool)
    ensures
        r == shape_ok(*shape),
{
    match shape {
        ShapeParams::Rectangle(r) => r.x as i128 + r.width as i128 <= i64::MAX as i128 && r.y as i128
            + r.height as i128 <= i64::MAX as i128,
        ShapeParams::Circle(c) => {
            0 <= c.half && c.half <= 0x1000_0000_0000_0000 && i64::MIN as i128 + c.half as i128
                <= c.center_x as i128 && (c.center_x as i128) < i64::MAX as i128 - c.half as i128
                && i64::MIN as i128 + c.half as i128 <= c.center_y as i128 && (c.center_y as i128)
                < i64::MAX as i128 - c.half as i128
        },
    }
}

/// A grid with exactly the cells the shapes cover blocked.
pub fn fill_shapes(shapes: &Vec<ShapeParams>) -> (r: OccupancyGrid)
    requires
        forall|i: int| 0 <= i < shapes@.len() ==> shape_ok(#[trigger] shapes@[i]),
    ensures
        r@ == shapes_cells(shapes@),
{
    let mut grid = OccupancyGrid::new();
    let mut i: usize = 0;
    while i < shapes.len()
        invariant
            i <= shapes@.len(),
            forall|i: int| 0 <= i < shapes@.len() ==> shape_ok(#[trigger] shapes@[i]),
            grid@ == shapes_cells(shapes@.take(i as int)),
        decreases shapes@.len() - i,
    {
        grid.mark_shape(&shapes[i]);
        proof {
            assert(shapes@.take(i + 1).drop_last() =~= shapes@.take(i as int));
        }
        i += 1;
    }
    proof {
        assert(shapes@.take(shapes@.len() as int) =~= shapes@);
    }
    grid
}

/// The fixed A* stage.
pub fn a_star_stage() -> (r: OccupancyGrid)
    ensures
        r@ == a_star_stage_cells(),
{
    let mut grid = OccupancyGrid::new();
    grid.mark_rectangle(39, 37, 1, 12);
    grid.mark_rectangle(30, 40, 19, 0);
    grid.mark_rectangle(30, 49, 19, 0);
    proof {
        assert(grid@ =~= a_star_stage_cells());
    }
    grid
}

/// The obstacles of a stage: the fixed walls of `AStar`, the given shapes for
/// `Generated`, and none for `Office`, which has no obstacle cells.
pub fn stage_grid(stage: Stage, shapes: &Vec<ShapeParams>) -> (r: OccupancyGrid)
    requires
        forall|i: int| 0 <= i < shapes@.len() ==> shape_ok(#[trigger] shapes@[i]),
    ensures
        r@ == match stage {
            Stage::AStar => a_star_stage_cells(),
            Stage::Office => Set::<Pos2>::empty(),
            Stage::Generated => shapes_cells(shapes@),
        },
{
    match stage {
        Stage::AStar => a_star_stage(),
        Stage::Office => OccupancyGrid::new(),
        Stage::Generated => fill_shapes(shapes),
    }
}

} // verus!
