use vstd::prelude::*;
use crate::pos2::Pos2;

verus! {

broadcast use vstd::seq_lib::lemma_seq_contains_after_push;

/// The set of impassable cells. A cell is blocked exactly when it is listed;
/// listing it twice changes nothing.
#[derive(Clone, Debug)]
pub struct OccupancyGrid {
    pub cells: Vec<Pos2>,
}

impl View for OccupancyGrid {
    type V = Set<Pos2>;

    open spec fn view(&self) -> Set<Pos2> {
        Set::new(|p: Pos2| self.cells@.contains(p))
    }
}

/// The cells of `[x, x + width] × [y, y + height]`.
pub open spec fn rect_cells(x: int, y: int, width: int, height: int) -> Set<Pos2> {
    Set::new(|p: Pos2| x <= p.x <= x + width && y <= p.y <= y + height)
}

/// Squared distance from a point to the centre.
pub open spec fn dist_sq(px: int, py: int, cx: int, cy: int) -> int {
    (px - cx) * (px - cx) + (py - cy) * (py - cy)
}

/// Some corner of the unit cell at `p` lies within the circle.
pub open spec fn corner_in_circle(p: Pos2, cx: int, cy: int, radius_sq: int) -> bool {
    ||| dist_sq(p.x as int, p.y as int, cx, cy) <= radius_sq
    ||| dist_sq(p.x + 1, p.y as int, cx, cy) <= radius_sq
    ||| dist_sq(p.x as int, p.y + 1, cx, cy) <= radius_sq
    ||| dist_sq(p.x + 1, p.y + 1, cx, cy) <= radius_sq
}

/// The cells of the box `[cx - half, cx + half] × [cy - half, cy + half]` that
/// have a corner within the circle.
pub open spec fn circle_cells(cx: int, cy: int, half: int, radius_sq: int) -> Set<Pos2> {
    Set::new(
        |p: Pos2|
            cx - half <= p.x <= cx + half && cy - half <= p.y <= cy + half && corner_in_circle(
                p,
                cx,
                cy,
                radius_sq,
            ),
    )
}

/// Marking a rectangle and then clearing leaves no cell blocked: `clear`
/// ends at the empty set whatever `mark_rectangle` added before it.
pub proof fn lemma_mark_then_clear(
    before: Set<Pos2>,
    x: int,
    y: int,
    width: int,
    height: int,
    marked: Set<Pos2>,
    cleared: Set<Pos2>,
)
    requires
        marked == before.union(rect_cells(x, y, width, height)),
        cleared == Set::<Pos2>::empty(),
    ensures
        forall|p: Pos2| !cleared.contains(p),
        forall|p: Pos2| rect_cells(x, y, width, height).contains(p) ==> marked.contains(p) && !cleared.contains(p),
{
}

impl OccupancyGrid {
    pub fn new() -> (r: Self)
        ensures
            r@ == Set::<Pos2>::empty(),
    {
        let r = OccupancyGrid { cells: Vec::new() };
        assert(r@ =~= Set::<Pos2>::empty());
        r
    }

    pub fn is_blocked(&self, pos: &Pos2) -> (r: bool)
        ensures
            r == self@.contains(*pos),
    {
        let mut i: usize = 0;
        while i < self.cells.len()
            invariant
                i <= self.cells@.len(),
                forall|j: int| 0 <= j < i ==> self.cells@[j] != *pos,
            decreases self.cells@.len() - i,
        {
            if self.cells[i] == *pos {
                return true;
            }
            i += 1;
        }
        false
    }

    /// Blocks one cell.
    pub fn block(&mut self, pos: Pos2)
        ensures
            final(self)@ == old(self)@.insert(pos),
    {
        if !self.is_blocked(&pos) {
            self.cells.push(pos);
        }
        assert(final(self)@ =~= old(self)@.insert(pos));
    }

    /// Unblocks every cell.
    pub fn clear(&mut self)
        ensures
            final(self)@ == Set::<Pos2>::empty(),
    {
        self.cells.clear();
        assert(final(self)@ =~= Set::<Pos2>::empty());
    }

    /// Blocks every cell of `[x, x + width] × [y, y + height]`; a negative side
    /// blocks nothing, a zero side one row or column.
    pub fn mark_rectangle(&mut self, x: i64, y: i64, width: i64, height: i64)
        requires
            x + width <= i64::MAX,
            y + height <= i64::MAX,
        ensures
            final(self)@ == old(self)@.union(rect_cells(x as int, y as int, width as int, height as int)),
    {
        let ghost start = self@;
        let end_x: i128 = x as i128 + width as i128;
        let end_y: i128 = y as i128 + height as i128;
        let mut ix: i128 = x as i128;
        while ix <= end_x
            invariant
                end_x == x + width,
                end_y == y + height,
                end_x <= i64::MAX,
                end_y <= i64::MAX,
                x <= ix,
                width >= 0 ==> ix <= end_x + 1,
                width < 0 ==> ix == x,
                self@ == start.union(rect_cells(x as int, y as int, ix - 1 - x, height as int)),
            decreases end_x + 1 - ix,
        {
            let mut iy: i128 = y as i128;
            while iy <= end_y
                invariant
                    end_y == y + height,
                    end_y <= i64::MAX,
                    x <= ix <= end_x,
                    end_x <= i64::MAX,
                    y <= iy,
                    height >= 0 ==> iy <= end_y + 1,
                    height < 0 ==> iy == y,
                    self@ == start.union(rect_cells(x as int, y as int, ix - 1 - x, height as int)).union(
                        rect_cells(ix as int, y as int, 0, iy - 1 - y),
                    ),
                decreases end_y + 1 - iy,
            {
                self.block(Pos2 { x: ix as i64, y: iy as i64 });
                iy += 1;
                assert(self@ =~= start.union(rect_cells(x as int, y as int, ix - 1 - x, height as int)).union(
                    rect_cells(ix as int, y as int, 0, iy - 1 - y),
                ));
            }
            ix += 1;
            assert(self@ =~= start.union(rect_cells(x as int, y as int, ix - 1 - x, height as int)));
        }
        assert(self@ =~= start.union(rect_cells(x as int, y as int, width as int, height as int)));
    }

    /// Tests every cell of the box `[cx - half, cx + half] × [cy - half, cy + half]`
    /// and blocks it when one of its corners lies within `radius_sq.sqrt()` of
    /// `(cx, cy)`: a cheap over-approximation of the disc that needs no root.
    /// For a radius `r`, `half` is `ceil(r)` and `radius_sq` is `floor(r²)`.
    pub fn mark_circle(&mut self, cx: i64, cy: i64, half: i64, radius_sq: i64)
        requires
            0 <= half <= 0x1000_0000_0000_0000,
            i64::MIN + half <= cx < i64::MAX - half,
            i64::MIN + half <= cy < i64::MAX - half,
        ensures
            final(self)@ == old(self)@.union(circle_cells(cx as int, cy as int, half as int, radius_sq as int)),
    {
        let ghost start = self@;
        let ghost circle = circle_cells(cx as int, cy as int, half as int, radius_sq as int);
        let lo_x: i64 = cx - half;
        let hi_x: i64 = cx + half;
        let lo_y: i64 = cy - half;
        let hi_y: i64 = cy + half;
        let mut ix: i64 = lo_x;
        assert(start.union(Set::new(|p: Pos2| circle.contains(p) && p.x < ix)) =~= start);
        while ix <= hi_x
            invariant
                lo_x == cx - half,
                hi_x == cx + half,
                lo_y == cy - half,
                hi_y == cy + half,
                0 <= half <= 0x1000_0000_0000_0000,
                i64::MIN + half <= cx < i64::MAX - half,
                i64::MIN + half <= cy < i64::MAX - half,
                lo_x <= ix <= hi_x + 1,
                circle == circle_cells(cx as int, cy as int, half as int, radius_sq as int),
                self@ == start.union(Set::new(|p: Pos2| circle.contains(p) && p.x < ix)),
            decreases hi_x + 1 - ix,
        {
            let mut iy: i64 = lo_y;
            assert(Set::new(|p: Pos2| circle.contains(p) && (p.x < ix || (p.x == ix && p.y < iy)))
                =~= Set::new(|p: Pos2| circle.contains(p) && p.x < ix));
            while iy <= hi_y
                invariant
                    lo_x == cx - half,
                    hi_x == cx + half,
                    lo_y == cy - half,
                    hi_y == cy + half,
                    0 <= half <= 0x1000_0000_0000_0000,
                    i64::MIN + half <= cx < i64::MAX - half,
                    i64::MIN + half <= cy < i64::MAX - half,
                    lo_x <= ix <= hi_x,
                    lo_y <= iy <= hi_y + 1,
                    circle == circle_cells(cx as int, cy as int, half as int, radius_sq as int),
                    self@ == start.union(
                        Set::new(|p: Pos2| circle.contains(p) && (p.x < ix || (p.x == ix && p.y < iy))),
                    ),
                decreases hi_y + 1 - iy,
            {
                let cell = Pos2 { x: ix, y: iy };
                if is_inside_circle(ix, iy, cx, cy, radius_sq) {
                    self.block(cell);
                }
                iy += 1;
                assert(self@ =~= start.union(
                    Set::new(|p: Pos2| circle.contains(p) && (p.x < ix || (p.x == ix && p.y < iy))),
                ));
            }
            ix += 1;
            assert(self@ =~= start.union(Set::new(|p: Pos2| circle.contains(p) && p.x < ix)));
        }
        assert(self@ =~= start.union(circle));
    }
}

/// Whether some corner of the cell at `(x, y)` lies within the circle.
fn is_inside_circle(x: i64, y: i64, cx: i64, cy: i64, radius_sq: i64) -> (r: bool)
    requires
        -0x1000_0000_0000_0000 <= x - cx <= 0x1000_0000_0000_0000,
        -0x1000_0000_0000_0000 <= y - cy <= 0x1000_0000_0000_0000,
    ensures
        r == corner_in_circle(Pos2 { x, y }, cx as int, cy as int, radius_sq as int),
{
    let dx0: i128 = x as i128 - cx as i128;
    let dy0: i128 = y as i128 - cy as i128;
    let dx1: i128 = dx0 + 1;
    let dy1: i128 = dy0 + 1;
    proof {
        assert(0 <= dx0 * dx0 <= 0x1000_0000_0000_0001 * 0x1000_0000_0000_0001) by (nonlinear_arith)
            requires -0x1000_0000_0000_0000 <= dx0 <= 0x1000_0000_0000_0000;
        assert(0 <= dy0 * dy0 <= 0x1000_0000_0000_0001 * 0x1000_0000_0000_0001) by (nonlinear_arith)
            requires -0x1000_0000_0000_0000 <= dy0 <= 0x1000_0000_0000_0000;
        assert(0 <= dx1 * dx1 <= 0x1000_0000_0000_0001 * 0x1000_0000_0000_0001) by (nonlinear_arith)
            requires -0x0fff_ffff_ffff_ffff <= dx1 <= 0x1000_0000_0000_0001;
        assert(0 <= dy1 * dy1 <= 0x1000_0000_0000_0001 * 0x1000_0000_0000_0001) by (nonlinear_arith)
            requires -0x0fff_ffff_ffff_ffff <= dy1 <= 0x1000_0000_0000_0001;
    }
    let r = radius_sq as i128;
    dx0 * dx0 + dy0 * dy0 <= r || dx1 * dx1 + dy0 * dy0 <= r || dx0 * dx0 + dy1 * dy1 <= r
        || dx1 * dx1 + dy1 * dy1 <= r
}

} // verus!
