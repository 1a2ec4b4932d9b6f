use vstd::prelude::*;
use crate::grid::OccupancyGrid;
use crate::pos2::{adjacent, dir_of, manhattan, Pos2};
use crate::search;
use crate::walks::{grid_ok, lemma_walk_in_bounds, lemma_walk_manhattan, lemma_walk_prefix, lemma_walk_suffix};

verus! {

/// A snapshot for path queries: the traversable rectangle `[min, max]` and the
/// cells blocked inside or outside it.
#[derive(Clone, Debug)]
pub struct NavMesh {
    pub space_lut: OccupancyGrid,
    pub min: Pos2,
    pub max: Pos2,
}

impl NavMesh {
    pub open spec fn in_bounds(&self, p: Pos2) -> bool {
        self.min.x <= p.x <= self.max.x && self.min.y <= p.y <= self.max.y
    }

    pub open spec fn passable(&self, p: Pos2) -> bool {
        !self.space_lut@.contains(p)
    }

    /// One move of a walk: between two in-bounds cells that share a side.
    pub open spec fn step(&self, a: Pos2, b: Pos2) -> bool {
        self.in_bounds(a) && self.in_bounds(b) && adjacent(a, b)
    }

    /// A non-empty sequence of passable cells, each move a `step`. A walk of one
    /// cell makes no move, so it needs no bounds.
    pub open spec fn is_walk(&self, w: Seq<Pos2>) -> bool {
        &&& w.len() >= 1
        &&& forall|i: int| 0 <= i < w.len() ==> self.passable(#[trigger] w[i])
        &&& forall|i: int| 0 <= i < w.len() - 1 ==> #[trigger] self.step(w[i], w[i + 1])
    }

    pub open spec fn is_walk_between(&self, w: Seq<Pos2>, start: Pos2, goal: Pos2) -> bool {
        self.is_walk(w) && w[0] == start && w.last() == goal
    }

    pub open spec fn reachable(&self, start: Pos2, goal: Pos2) -> bool {
        exists|w: Seq<Pos2>| self.is_walk_between(w, start, goal)
    }

    /// A walk from `start` to `goal` with no fewer cells than any other.
    pub open spec fn is_shortest(&self, w: Seq<Pos2>, start: Pos2, goal: Pos2) -> bool {
        &&& self.is_walk_between(w, start, goal)
        &&& forall|q: Seq<Pos2>| self.is_walk_between(q, start, goal) ==> w.len() <= q.len()
    }

    /// Some walk from `c` to `goal` makes at most `k` moves.
    pub open spec fn within(&self, c: Pos2, goal: Pos2, k: int) -> bool {
        exists|w: Seq<Pos2>| self.is_walk_between(w, c, goal) && w.len() <= k + 1
    }

    /// From `c` one may move to `q` and still reach `goal` in `k` more moves.
    pub open spec fn on_course(&self, c: Pos2, q: Pos2, goal: Pos2, k: int) -> bool {
        self.step(c, q) && self.passable(q) && self.within(q, goal, k)
    }

    /// The canonical route: a shortest walk whose every move goes to the first
    /// side of the current cell (right, left, up, down) from which the goal
    /// can still be reached in the moves left.
    pub open spec fn is_canonical(&self, w: Seq<Pos2>, start: Pos2, goal: Pos2) -> bool {
        &&& self.is_shortest(w, start, goal)
        &&& forall|i: int, q: Pos2|
            0 <= i < w.len() - 1 && adjacent(w[i], q) && dir_of(w[i], q) < dir_of(w[i], w[i + 1])
                ==> !#[trigger] self.on_course(w[i], q, goal, w.len() - 2 - i)
    }

    /// What a single-target query answers: the canonical route, or nothing
    /// when no walk exists.
    pub open spec fn search_result(&self, start: Pos2, goal: Pos2, r: Option<Seq<Pos2>>) -> bool {
        match r {
            Some(w) => self.is_canonical(w, start, goal),
            None => !self.reachable(start, goal),
        }
    }

    /// Where a route through `wps` from `start` currently ends.
    pub open spec fn junction(start: Pos2, wps: Seq<Pos2>) -> Pos2 {
        if wps.len() == 0 {
            start
        } else {
            wps.last()
        }
    }

    /// `w` runs from `start` through every waypoint in order: each leg is a
    /// shortest walk from the previous waypoint (or `start`) to the next, and
    /// consecutive legs share their junction cell once. Each leg is the
    /// canonical route, so the route is fixed by its inputs.
    pub open spec fn is_route(&self, start: Pos2, wps: Seq<Pos2>, w: Seq<Pos2>) -> bool
        decreases wps.len(),
    {
        if wps.len() == 0 {
            w == seq![start]
        } else {
            exists|k: int|
                0 <= k < w.len() && self.is_route(start, wps.drop_last(), #[trigger] w.take(k + 1))
                    && self.is_canonical(w.skip(k), NavMesh::junction(start, wps.drop_last()), wps.last())
        }
    }

    /// Every leg of the route through `wps` from `start` can be walked.
    pub open spec fn legs_reachable(&self, start: Pos2, wps: Seq<Pos2>) -> bool {
        forall|i: int|
            0 <= i < wps.len() ==> #[trigger] self.reachable(NavMesh::junction(start, wps.take(i)), wps[i])
    }

    /// Number of cells of the rectangle.
    pub open spec fn area(&self) -> int {
        if self.max.x < self.min.x || self.max.y < self.min.y {
            0
        } else {
            (self.max.x - self.min.x + 1) * (self.max.y - self.min.y + 1)
        }
    }

    pub fn set_grid_boundaries(&mut self, min: Pos2, max: Pos2)
        ensures
            final(self).min == min,
            final(self).max == max,
            final(self).space_lut == old(self).space_lut,
    {
        self.min = min;
        self.max = max;
    }

    pub fn set_space_lut(&mut self, space_lut: OccupancyGrid)
        ensures
            final(self).space_lut == space_lut,
            final(self).min == old(self).min,
            final(self).max == old(self).max,
    {
        self.space_lut = space_lut;
    }

    pub fn is_in_bounds(&self, pos: &Pos2) -> (r: bool)
        ensures
            r == self.in_bounds(*pos),
    {
        pos.x >= self.min.x && pos.x <= self.max.x && pos.y >= self.min.y && pos.y <= self.max.y
    }

    /// A query from an unblocked cell to itself answers that one cell.
    pub proof fn lemma_same_cell(&self, p: Pos2, r: Option<Seq<Pos2>>)
        requires
            self.passable(p),
            self.search_result(p, p, r),
        ensures
            r == Some(seq![p]),
    {
        let one = seq![p];
        assert(self.is_walk_between(one, p, p));
        if let Some(w) = r {
            assert(w.len() <= 1);
            assert(w =~= one);
        }
    }

    /// A blocked start or goal admits no walk, so the query answers `None`.
    pub proof fn lemma_blocked_end(&self, start: Pos2, goal: Pos2, r: Option<Seq<Pos2>>)
        requires
            !self.passable(start) || !self.passable(goal),
            self.search_result(start, goal, r),
        ensures
            r is None,
    {
        if let Some(w) = r {
            assert(self.passable(w[0]));
            assert(self.passable(w[w.len() - 1]));
        }
    }

    /// A goal other than the start whose every side is blocked or out of
    /// bounds cannot be reached.
    pub proof fn lemma_enclosed_goal(&self, start: Pos2, goal: Pos2, r: Option<Seq<Pos2>>)
        requires
            start != goal,
            forall|q: Pos2| adjacent(goal, q) ==> !self.passable(q) || !self.in_bounds(q),
            self.search_result(start, goal, r),
        ensures
            r is None,
    {
        if let Some(w) = r {
            assert(w.len() >= 2);
            let k = w.len() - 2;
            assert(self.step(w[k], w[k + 1]));
            assert(self.passable(w[k]));
        }
    }

    /// A shortest walk meets its goal only at its end.
    pub proof fn lemma_shortest_goal_once(&self, w: Seq<Pos2>, start: Pos2, goal: Pos2)
        requires
            self.is_shortest(w, start, goal),
        ensures
            forall|i: int| 0 <= i < w.len() - 1 ==> w[i] != goal,
    {
        assert forall|i: int| 0 <= i < w.len() - 1 implies w[i] != goal by {
            if w[i] == goal {
                lemma_walk_prefix(self, w, i);
                assert(self.is_walk_between(w.take(i + 1), start, goal));
            }
        }
    }

    /// A shortest walk meets its start only at its beginning.
    pub proof fn lemma_shortest_start_once(&self, w: Seq<Pos2>, start: Pos2, goal: Pos2)
        requires
            self.is_shortest(w, start, goal),
        ensures
            forall|i: int| 0 < i < w.len() ==> w[i] != start,
    {
        assert forall|i: int| 0 < i < w.len() implies w[i] != start by {
            if w[i] == start {
                lemma_walk_suffix(self, w, i);
                assert(self.is_walk_between(w.skip(i), start, goal));
            }
        }
    }

    /// In a route through `[a, b]` the first waypoint appears exactly once,
    /// at the junction of the two legs.
    pub proof fn lemma_junction_once(&self, start: Pos2, a: Pos2, b: Pos2, w: Seq<Pos2>)
        requires
            self.is_route(start, seq![a, b], w),
        ensures
            exists|i: int| 0 <= i < w.len() && w[i] == a && forall|j: int| 0 <= j < w.len() && w[j] == a ==> j == i,
    {
        let wps = seq![a, b];
        assert(wps.drop_last() =~= seq![a]);
        let k = choose|k: int|
            0 <= k < w.len() && self.is_route(start, wps.drop_last(), #[trigger] w.take(k + 1))
                && self.is_canonical(w.skip(k), NavMesh::junction(start, wps.drop_last()), wps.last());
        let t = w.take(k + 1);
        let one = seq![a];
        assert(one.drop_last() =~= Seq::<Pos2>::empty());
        let k2 = choose|k2: int|
            0 <= k2 < t.len() && self.is_route(start, one.drop_last(), #[trigger] t.take(k2 + 1))
                && self.is_shortest(t.skip(k2), NavMesh::junction(start, one.drop_last()), one.last());
        assert(t.take(k2 + 1) == seq![start]);
        assert(k2 == 0);
        assert(t.skip(0) =~= t);
        let leg = w.skip(k);
        self.lemma_shortest_goal_once(t, start, a);
        self.lemma_shortest_start_once(leg, a, b);
        assert(w[k] == a);
        assert forall|j: int| 0 <= j < w.len() && w[j] == a implies j == k by {
            if j < k {
                assert(t[j] == w[j]);
            } else if j > k {
                assert(leg[j - k] == w[j]);
            }
        }
    }

    /// Some shortest 4-connected walk from `start` to `end`, by A*; `None`
    /// when an end is blocked or no walk exists.
    fn shortest_walk(&self, start: Pos2, end: Pos2) -> (r: Option<Vec<Pos2>>)
        requires
            self.area() <= usize::MAX,
        ensures
            !self.passable(start) || !self.passable(end) ==> r is None,
            match r {
                Some(w) => self.is_shortest(w@, start, end),
                None => !self.reachable(start, end),
            },
    {
        if self.space_lut.is_blocked(&start) || self.space_lut.is_blocked(&end) {
            proof {
                if self.reachable(start, end) {
                    let w = choose|w: Seq<Pos2>| self.is_walk_between(w, start, end);
                    assert(self.passable(w[0]));
                    assert(self.passable(w[w.len() - 1]));
                }
            }
            return None;
        }
        if start == end {
            let r = vec![start];
            proof {
                assert(self.passable(r@[0]));
            }
            return Some(r);
        }
        if !self.is_in_bounds(&start) || !self.is_in_bounds(&end) {
            proof {
                if self.reachable(start, end) {
                    let w = choose|w: Seq<Pos2>| self.is_walk_between(w, start, end);
                    assert(w.len() >= 2);
                    let z: int = 0;
                    assert(self.step(w[z], w[z + 1]));
                    let k = w.len() - 2;
                    assert(self.step(w[k], w[k + 1]));
                }
            }
            return None;
        }
        proof {
            assert(grid_ok(self));
        }
        search::run(self, start, end)
    }

    /// Shortest 4-connected route from `start` to `end`, both ends included;
    /// `None` when an end is blocked or no route exists. Every move stays in
    /// bounds; a route of one cell (`start == end`) makes no move. A* finds
    /// the length; among the routes of that length the canonical one is
    /// returned, so equal inputs always give the same route.
    pub fn a_star(&self, start: Pos2, end: Pos2) -> (r: Option<Vec<Pos2>>)
        requires
            self.area() <= usize::MAX,
        ensures
            !self.passable(start) || !self.passable(end) ==> r is None,
            match r {
                Some(w) => self.is_canonical(w@, start, end),
                None => !self.reachable(start, end),
            },
    {
        match self.shortest_walk(start, end) {
            None => None,
            Some(w) => Some(self.canonical_walk(start, end, w.len(), Ghost(w@))),
        }
    }

    /// Whether `goal` can be reached from the passable cell `q` in `k` moves.
    fn reaches_within(&self, q: Pos2, goal: Pos2, k: usize) -> (r: bool)
        requires
            self.area() <= usize::MAX,
        ensures
            r == (self.passable(q) && self.within(q, goal, k as int)),
    {
        if self.space_lut.is_blocked(&q) {
            return false;
        }
        if self.heuristic(&q, &goal) > k as i128 {
            proof {
                if self.within(q, goal, k as int) {
                    let v = choose|v: Seq<Pos2>| self.is_walk_between(v, q, goal) && v.len() <= k + 1;
                    lemma_walk_manhattan(self, v, 0);
                }
            }
            return false;
        }
        match self.shortest_walk(q, goal) {
            Some(w) => {
                proof {
                    if self.within(q, goal, k as int) {
                        let v = choose|v: Seq<Pos2>| self.is_walk_between(v, q, goal) && v.len() <= k + 1;
                        assert(w@.len() <= v.len());
                    }
                }
                w.len() - 1 <= k
            },
            None => false,
        }
    }

    /// Builds the canonical route of `len` cells from `start` to `goal`,
    /// given that a shortest walk `w` of that many cells exists: from each
    /// cell it moves to the first side that can still reach the goal in time.
    fn canonical_walk(&self, start: Pos2, goal: Pos2, len: usize, w: Ghost<Seq<Pos2>>) -> (r: Vec<Pos2>)
        requires
            self.area() <= usize::MAX,
            self.is_shortest(w@, start, goal),
            w@.len() == len,
        ensures
            self.is_canonical(r@, start, goal),
    {
        let mut path: Vec<Pos2> = Vec::new();
        path.push(start);
        let mut cur = start;
        let mut i: usize = 0;
        proof {
            assert(self.passable(w@[0]));
            if len >= 2 {
                lemma_walk_in_bounds(self, w@, 0);
            }
        }
        while i + 1 < len
            invariant
                self.area() <= usize::MAX,
                self.is_shortest(w@, start, goal),
                w@.len() == len,
                i + 1 <= len,
                path@.len() == i + 1,
                path@[0] == start,
                path@.last() == cur,
                self.is_walk(path@),
                len >= 2 ==> self.in_bounds(cur),
                self.within(cur, goal, len - 1 - i),
                forall|j: int, q: Pos2|
                    0 <= j < i && adjacent(path@[j], q) && dir_of(path@[j], q) < dir_of(path@[j], path@[j + 1])
                        ==> !#[trigger] self.on_course(path@[j], q, goal, len - 2 - j),
            decreases len - i,
        {
            let k: usize = len - 2 - i;
            let ghost v = choose|v: Seq<Pos2>| self.is_walk_between(v, cur, goal) && v.len() <= len - i;
            proof {
                if cur == goal {
                    assert(self.is_walk_between(path@, start, goal));
                }
                assert(v.len() >= 2);
                let z: int = 0;
                assert(self.step(v[z], v[z + 1]));
                lemma_walk_suffix(self, v, 1);
                assert(self.is_walk_between(v.skip(1), v[1], goal) && v.skip(1).len() <= k + 1);
                assert(self.passable(v[1]));
                assert(self.on_course(cur, v[1], goal, k as int));
            }
            let ghost target = v[1];
            let mut d: usize = 0;
            let mut next: Option<Pos2> = None;
            while d < 4 && next.is_none()
                invariant
                    self.area() <= usize::MAX,
                    self.in_bounds(cur),
                    k == len - 2 - i,
                    d <= 4,
                    adjacent(cur, target),
                    self.on_course(cur, target, goal, k as int),
                    next matches Some(q) ==> adjacent(cur, q) && self.on_course(cur, q, goal, k as int)
                        && forall|q2: Pos2| adjacent(cur, q2) && dir_of(cur, q2) < dir_of(cur, q) ==> !#[trigger] self.on_course(cur, q2, goal, k as int),
                    next is None ==> forall|q2: Pos2|
                        adjacent(cur, q2) && dir_of(cur, q2) < d ==> !#[trigger] self.on_course(cur, q2, goal, k as int),
                decreases 4 - d + (if next is None { 1int } else { 0int }),
            {
                match search::neighbor(self, cur, d) {
                    Some(q) => {
                        if self.reaches_within(q, goal, k) {
                            next = Some(q);
                        }
                        proof {
                            assert forall|q2: Pos2| adjacent(cur, q2) && dir_of(cur, q2) == d implies q2 == q by {
                                search::lemma_dir_unique(cur, q, q2);
                            }
                        }
                    },
                    None => {},
                }
                d += 1;
            }
            proof {
                if next is None {
                    assert(dir_of(cur, target) < 4);
                }
            }
            let q = next.unwrap();
            let ghost prev = path@;
            path.push(q);
            proof {
                assert forall|j: int| 0 <= j < path@.len() - 1 implies #[trigger] self.step(path@[j], path@[j + 1]) by {
                    if j < prev.len() - 1 {
                        assert(self.step(prev[j], prev[j + 1]));
                    }
                }
                assert forall|j: int| 0 <= j < path@.len() implies self.passable(#[trigger] path@[j]) by {
                    if j < prev.len() {
                        assert(self.passable(prev[j]));
                    }
                }
                assert forall|j: int, q2: Pos2|
                    0 <= j < i + 1 && adjacent(path@[j], q2) && dir_of(path@[j], q2) < dir_of(path@[j], path@[j + 1])
                        implies !#[trigger] self.on_course(path@[j], q2, goal, len - 2 - j) by {
                    if j < i {
                        assert(prev[j] == path@[j] && prev[j + 1] == path@[j + 1]);
                    }
                }
            }
            cur = q;
            i += 1;
        }
        proof {
            let v = choose|v: Seq<Pos2>| self.is_walk_between(v, cur, goal) && v.len() <= 1;
            assert(v[0] == v[v.len() - 1]);
            assert forall|q: Seq<Pos2>| self.is_walk_between(q, start, goal) implies path@.len() <= q.len() by {}
        }
        path
    }

    /// Canonical routes are unique: equal inputs give one answer.
    pub proof fn lemma_canonical_unique(&self, w1: Seq<Pos2>, w2: Seq<Pos2>, start: Pos2, goal: Pos2)
        requires
            self.is_canonical(w1, start, goal),
            self.is_canonical(w2, start, goal),
        ensures
            w1 == w2,
    {
        assert(w1.len() <= w2.len() && w2.len() <= w1.len());
        assert forall|i: int| 0 <= i < w1.len() implies w1[i] == w2[i] by {
            self.lemma_canonical_agree(w1, w2, start, goal, i);
        }
        assert(w1 =~= w2);
    }

    proof fn lemma_canonical_agree(&self, w1: Seq<Pos2>, w2: Seq<Pos2>, start: Pos2, goal: Pos2, i: int)
        requires
            self.is_canonical(w1, start, goal),
            self.is_canonical(w2, start, goal),
            w1.len() == w2.len(),
            0 <= i < w1.len(),
        ensures
            w1[i] == w2[i],
        decreases i,
    {
        if i > 0 {
            let j = i - 1;
            self.lemma_canonical_agree(w1, w2, start, goal, j);
            let a = w1[j];
            let k = w1.len() - 2 - j;
            assert(self.step(w1[j], w1[j + 1]));
            assert(self.step(w2[j], w2[j + 1]));
            lemma_walk_suffix(self, w1, i);
            lemma_walk_suffix(self, w2, i);
            assert(self.is_walk_between(w1.skip(i), w1[i], goal));
            assert(self.is_walk_between(w2.skip(i), w2[i], goal));
            assert(self.on_course(w1[j], w1[i], goal, k));
            assert(self.on_course(w2[j], w2[i], goal, k));
            if dir_of(a, w1[i]) < dir_of(a, w2[i]) {
                assert(!self.on_course(w2[j], w1[i], goal, k));
            } else if dir_of(a, w2[i]) < dir_of(a, w1[i]) {
                assert(!self.on_course(w1[j], w2[i], goal, k));
            } else {
                search::lemma_dir_unique(a, w1[i], w2[i]);
            }
        }
    }

    /// A single-target query answers alike on equal inputs.
    pub proof fn lemma_search_deterministic(&self, start: Pos2, goal: Pos2, r1: Option<Seq<Pos2>>, r2: Option<Seq<Pos2>>)
        requires
            self.search_result(start, goal, r1),
            self.search_result(start, goal, r2),
        ensures
            r1 == r2,
    {
        if let (Some(w1), Some(w2)) = (r1, r2) {
            self.lemma_canonical_unique(w1, w2, start, goal);
        } else if let Some(w1) = r1 {
            assert(self.is_walk_between(w1, start, goal));
        } else if let Some(w2) = r2 {
            assert(self.is_walk_between(w2, start, goal));
        }
    }

    /// Chains single-target searches through `waypoints` in order, each leg
    /// starting where the previous one ended and dropping its first cell, so
    /// a waypoint appears once at its junction. `None` when there is no
    /// waypoint or some leg cannot be walked (a blocked end included): no
    /// partial route is returned.
    pub fn waypointed_a_star(&self, start: Pos2, waypoints: Vec<Pos2>) -> (r: Option<Vec<Pos2>>)
        requires
            self.area() <= usize::MAX,
        ensures
            r is Some <==> (waypoints@.len() > 0 && self.legs_reachable(start, waypoints@)),
            r matches Some(w) ==> self.is_route(start, waypoints@, w@),
    {
        if waypoints.len() == 0 {
            return None;
        }
        let mut total: Vec<Pos2> = Vec::new();
        total.push(start);
        let mut current_start = start;
        let mut i: usize = 0;
        proof {
            assert(waypoints@.take(0) =~= Seq::<Pos2>::empty());
        }
        while i < waypoints.len()
            invariant
                self.area() <= usize::MAX,
                i <= waypoints@.len(),
                current_start == NavMesh::junction(start, waypoints@.take(i as int)),
                self.is_route(start, waypoints@.take(i as int), total@),
                total@.len() >= 1,
                total@.last() == current_start,
                forall|k: int|
                    0 <= k < i ==> #[trigger] self.reachable(NavMesh::junction(start, waypoints@.take(k)), waypoints@[k]),
            decreases waypoints@.len() - i,
        {
            let end = waypoints[i];
            if self.space_lut.is_blocked(&current_start) || self.space_lut.is_blocked(&end) {
                proof {
                    self.lemma_unreachable_leg(start, waypoints@, i as int);
                }
                return None;
            }
            match self.a_star(current_start, end) {
                None => {
                    proof {
                        self.lemma_unreachable_leg(start, waypoints@, i as int);
                    }
                    return None;
                },
                Some(leg) => {
                    let ghost before = total@;
                    let mut j: usize = 1;
                    while j < leg.len()
                        invariant
                            1 <= j <= leg@.len(),
                            total@ == before + leg@.subrange(1, j as int),
                        decreases leg@.len() - j,
                    {
                        total.push(leg[j]);
                        j += 1;
                        proof {
                            assert(total@ =~= before + leg@.subrange(1, j as int));
                        }
                    }
                    proof {
                        let wps = waypoints@.take(i + 1);
                        let k = before.len() - 1;
                        assert(wps.drop_last() =~= waypoints@.take(i as int));
                        assert(wps.last() == end);
                        assert(total@.take(k + 1) =~= before);
                        assert(total@.skip(k) =~= leg@);
                        assert(self.is_route(start, wps, total@));
                        assert(NavMesh::junction(start, wps) == end);
                        assert(self.reachable(current_start, end));
                    }
                },
            }
            current_start = end;
            i += 1;
        }
        proof {
            assert(waypoints@.take(waypoints@.len() as int) =~= waypoints@);
        }
        Some(total)
    }

    /// A leg whose start or end is blocked leaves the whole multi-waypoint
    /// query without a route, so `waypointed_a_star` answers `None`.
    pub proof fn lemma_blocked_leg(&self, start: Pos2, wps: Seq<Pos2>, i: int)
        requires
            0 <= i < wps.len(),
            !self.passable(NavMesh::junction(start, wps.take(i))) || !self.passable(wps[i]),
        ensures
            !self.legs_reachable(start, wps),
    {
        self.lemma_unreachable_leg(start, wps, i);
    }

    /// A leg that cannot be walked leaves the whole route without walks.
    proof fn lemma_unreachable_leg(&self, start: Pos2, wps: Seq<Pos2>, i: int)
        requires
            0 <= i < wps.len(),
            !self.reachable(NavMesh::junction(start, wps.take(i)), wps[i])
                || !self.passable(NavMesh::junction(start, wps.take(i))) || !self.passable(wps[i]),
        ensures
            !self.legs_reachable(start, wps),
    {
        let a = NavMesh::junction(start, wps.take(i));
        if self.reachable(a, wps[i]) {
            let w = choose|w: Seq<Pos2>| self.is_walk_between(w, a, wps[i]);
            assert(self.passable(w[0]));
            assert(self.passable(w[w.len() - 1]));
        }
    }

    /// Whether the rectangle's cells can be numbered by `usize`, which the
    /// searches ask of the snapshot.
    pub fn area_fits(&self) -> (r: bool)
        ensures
            r == (self.area() <= usize::MAX),
    {
        if self.max.x < self.min.x || self.max.y < self.min.y {
            return true;
        }
        let w: u128 = (self.max.x as i128 - self.min.x as i128 + 1) as u128;
        let h: u128 = (self.max.y as i128 - self.min.y as i128 + 1) as u128;
        if w > usize::MAX as u128 || h > usize::MAX as u128 {
            proof {
                assert(w * h >= w && w * h >= h) by (nonlinear_arith)
                    requires
                        w >= 1,
                        h >= 1,
                ;
            }
            return false;
        }
        proof {
            assert(w * h <= 0xffff_ffff_ffff_ffff * 0xffff_ffff_ffff_ffff) by (nonlinear_arith)
                requires
                    1 <= w <= 0xffff_ffff_ffff_ffff,
                    1 <= h <= 0xffff_ffff_ffff_ffff,
            ;
        }
        w * h <= usize::MAX as u128
    }

    /// Manhattan distance, the search's estimate of the moves left.
    pub(crate) fn heuristic(&self, a: &Pos2, b: &Pos2) -> (r: i128)
        ensures
            r == manhattan(*a, *b),
    {
        let dx: i128 = a.x as i128 - b.x as i128;
        let dy: i128 = a.y as i128 - b.y as i128;
        (if dx < 0 { -dx } else { dx }) + (if dy < 0 { -dy } else { dy })
    }
}

impl Default for NavMesh {
    fn default() -> (r: Self)
        ensures
            r.space_lut@ == Set::<Pos2>::empty(),
            r.min == (Pos2 { x: 100, y: 100 }),
            r.max == (Pos2 { x: 100, y: 100 }),
    {
        NavMesh { space_lut: OccupancyGrid::new(), min: Pos2::default(), max: Pos2::default() }
    }
}

} // verus!
