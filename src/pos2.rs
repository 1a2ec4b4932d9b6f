use vstd::prelude::*;

verus! {

/// One cell of the integer grid.
#[derive(Clone, Copy, PartialEq, Eq, Structural, Debug, Hash, PartialOrd, Ord)]
pub struct Pos2 {
    pub x: i64,
    pub y: i64,
}

/// Two cells share a side.
pub open spec fn adjacent(a: Pos2, b: Pos2) -> bool {
    ||| (a.x == b.x && (a.y - b.y == 1 || b.y - a.y == 1))
    ||| (a.y == b.y && (a.x - b.x == 1 || b.x - a.x == 1))
}

/// Which of the four sides of `a` the cell `b` lies on: right, left, up, down.
pub open spec fn dir_of(a: Pos2, b: Pos2) -> int {
    if b.x == a.x + 1 {
        0
    } else if b.x == a.x - 1 {
        1
    } else if b.y == a.y + 1 {
        2
    } else {
        3
    }
}

/// Manhattan distance between two cells.
pub open spec fn manhattan(a: Pos2, b: Pos2) -> int {
    let dx = a.x - b.x;
    let dy = a.y - b.y;
    (if dx < 0 { -dx } else { dx }) + (if dy < 0 { -dy } else { dy })
}

impl Default for Pos2 {
    fn default() -> (r: Self)
        ensures
            r == (Pos2 { x: 100, y: 100 }),
    {
        Pos2 { x: 100, y: 100 }
    }
}

impl Pos2 {
    pub fn new(x: i64, y: i64) -> (r: Self)
        ensures
            r == (Pos2 { x, y }),
    {
        Pos2 { x, y }
    }

    pub fn to_tuple(&self) -> (r: (i64, i64))
        ensures
            r == (self.x, self.y),
    {
        (self.x, self.y)
    }

    /// The four cells that share a side with this one: right, left, up, down.
    pub fn neighbors(&self) -> (r: Vec<Pos2>)
        requires
            i64::MIN < self.x < i64::MAX,
            i64::MIN < self.y < i64::MAX,
        ensures
            r@ == seq![
                Pos2 { x: (self.x + 1) as i64, y: self.y },
                Pos2 { x: (self.x - 1) as i64, y: self.y },
                Pos2 { x: self.x, y: (self.y + 1) as i64 },
                Pos2 { x: self.x, y: (self.y - 1) as i64 },
            ],
            forall|i: int| 0 <= i < 4 ==> adjacent(*self, #[trigger] r@[i]),
    {
        let r = vec![
            Pos2 { x: self.x + 1, y: self.y },
            Pos2 { x: self.x - 1, y: self.y },
            Pos2 { x: self.x, y: self.y + 1 },
            Pos2 { x: self.x, y: self.y - 1 },
        ];
        r
    }
}

} // verus!
