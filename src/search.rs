use vstd::prelude::*;
use crate::navmesh::NavMesh;
use crate::pos2::{adjacent, dir_of, manhattan, Pos2};
use crate::walks::{
    cell, grid_ok, height, idx, lemma_cell, lemma_idx, lemma_walk_in_bounds, lemma_walk_manhattan,
    lemma_walk_prefix, width,
};

verus! {

/// The state of one A* run over the cells of a rectangle, numbered by `idx`.
/// `g` holds the best known number of moves from the start, `seen` the cells
/// reached so far, `closed` the expanded ones and `open` the rest of `seen`.
pub(crate) struct Search {
    pub blk: Vec<bool>,
    pub g: Vec<usize>,
    pub seen: Vec<bool>,
    pub closed: Vec<bool>,
    pub parent: Vec<usize>,
    pub open: Vec<usize>,
    pub count: usize,
    pub closed_set: Ghost<Set<int>>,
}

/// The blocked flags match the grid on every cell of the rectangle.
#[verifier::opaque]
pub(crate) open spec fn blk_ok(m: &NavMesh, blk: Seq<bool>) -> bool {
    forall|i: int| 0 <= i < width(m) * height(m) ==> #[trigger] blk[i] == !m.passable(cell(m, i))
}

/// The start is reached at no cost; expanded cells are reached; reached
/// cells are passable and no farther than the number of expansions.
#[verifier::opaque]
pub(crate) open spec fn reach_ok(
    m: &NavMesh,
    start: Pos2,
    seen: Seq<bool>,
    closed: Seq<bool>,
    g: Seq<usize>,
    count: int,
) -> bool {
    let n = width(m) * height(m);
    &&& seen[idx(m, start)] && g[idx(m, start)] == 0
    &&& forall|i: int| 0 <= i < n && #[trigger] closed[i] ==> seen[i]
    &&& forall|i: int| 0 <= i < n && #[trigger] seen[i] ==> m.passable(cell(m, i)) && g[i] <= count
}

/// The back-pointer of a reached cell leads to a reached neighbour that is
/// nearer the start.
pub(crate) open spec fn parent_ok(m: &NavMesh, seen: Seq<bool>, g: Seq<usize>, parent: Seq<usize>, i: int) -> bool {
    let p = parent[i] as int;
    &&& 0 <= p < width(m) * height(m)
    &&& seen[p]
    &&& g[p] < g[i]
    &&& adjacent(cell(m, p), cell(m, i))
}

#[verifier::opaque]
pub(crate) open spec fn parents_ok(m: &NavMesh, start: Pos2, seen: Seq<bool>, g: Seq<usize>, parent: Seq<usize>) -> bool {
    forall|i: int|
        0 <= i < width(m) * height(m) && #[trigger] seen[i] && i != idx(m, start) ==> parent_ok(m, seen, g, parent, i)
}

/// `open` lists, once each, exactly the reached cells not yet expanded.
#[verifier::opaque]
pub(crate) open spec fn open_ok(m: &NavMesh, open: Seq<usize>, seen: Seq<bool>, closed: Seq<bool>) -> bool {
    let n = width(m) * height(m);
    &&& open.no_duplicates()
    &&& forall|k: int| 0 <= k < open.len() ==> (#[trigger] open[k] as int) < n
    &&& forall|i: int|
        #![trigger open.contains(i as usize)]
        #![trigger seen[i]]
        0 <= i < n ==> (open.contains(i as usize) <==> (seen[i] && !closed[i]))
}

/// An expanded cell is reached by no walk shorter than its `g`.
#[verifier::opaque]
pub(crate) open spec fn settled_ok(m: &NavMesh, start: Pos2, closed: Seq<bool>, g: Seq<usize>) -> bool {
    forall|i: int, q: Seq<Pos2>|
        0 <= i < width(m) * height(m) && #[trigger] closed[i] && #[trigger] m.is_walk_between(q, start, cell(m, i))
            ==> g[i] <= q.len() - 1
}

/// The goal is never expanded, and `count` counts the expanded cells.
#[verifier::opaque]
pub(crate) open spec fn count_ok(m: &NavMesh, goal: Pos2, closed: Seq<bool>, closed_set: Set<int>, count: int) -> bool {
    let n = width(m) * height(m);
    &&& !closed[idx(m, goal)]
    &&& closed_set.finite() && closed_set.len() == count && count <= n
    &&& forall|i: int| #[trigger] closed_set.contains(i) <==> (0 <= i < n && closed[i])
}

/// A passable neighbour `j` of an expanded cell `i` has been reached, and
/// unless expanded itself it is at most one move farther than `i`.
pub(crate) open spec fn expanded_ok(m: &NavMesh, closed: Seq<bool>, seen: Seq<bool>, g: Seq<usize>, i: int, j: int) -> bool {
    let n = width(m) * height(m);
    (0 <= i < n && 0 <= j < n && closed[i] && adjacent(cell(m, i), cell(m, j)) && m.passable(cell(m, j)))
        ==> (seen[j] && (closed[j] || g[j] <= g[i] + 1))
}

impl Search {
    pub(crate) open spec fn f(&self, m: &NavMesh, goal: Pos2, i: int) -> int {
        self.g@[i] + manhattan(cell(m, i), goal)
    }

    pub(crate) open spec fn expanded_ok(&self, m: &NavMesh, i: int, j: int) -> bool {
        expanded_ok(m, self.closed@, self.seen@, self.g@, i, j)
    }

    pub(crate) open spec fn base_inv(&self, m: &NavMesh, start: Pos2, goal: Pos2) -> bool {
        let n = width(m) * height(m);
        &&& grid_ok(m)
        &&& m.in_bounds(start) && m.in_bounds(goal) && start != goal
        &&& m.passable(start)
        &&& self.blk@.len() == n && self.g@.len() == n && self.seen@.len() == n
        &&& self.closed@.len() == n && self.parent@.len() == n
        &&& blk_ok(m, self.blk@)
        &&& reach_ok(m, start, self.seen@, self.closed@, self.g@, self.count as int)
        &&& parents_ok(m, start, self.seen@, self.g@, self.parent@)
        &&& open_ok(m, self.open@, self.seen@, self.closed@)
        &&& settled_ok(m, start, self.closed@, self.g@)
        &&& count_ok(m, goal, self.closed@, self.closed_set@, self.count as int)
    }

    pub(crate) open spec fn inv(&self, m: &NavMesh, start: Pos2, goal: Pos2) -> bool {
        &&& self.base_inv(m, start, goal)
        &&& forall|i: int, j: int| #[trigger] self.expanded_ok(m, i, j)
    }
}

/// The number `idx` gives an in-bounds cell.
fn index_of(m: &NavMesh, p: Pos2) -> (r: usize)
    requires
        grid_ok(m),
        m.in_bounds(p),
    ensures
        r == idx(m, p),
        r < width(m) * height(m),
{
    proof {
        lemma_idx(m, p);
        assert(0 <= (p.x - m.min.x) * height(m) <= idx(m, p)) by (nonlinear_arith)
            requires
                p.x - m.min.x >= 0,
                height(m) >= 1,
                p.y - m.min.y >= 0,
                idx(m, p) == (p.x - m.min.x) * height(m) + (p.y - m.min.y),
        ;
        assert(height(m) <= width(m) * height(m)) by (nonlinear_arith)
            requires
                width(m) >= 1,
                height(m) >= 1,
        ;
    }
    let a = (p.x as i128 - m.min.x as i128) as usize;
    let b = (p.y as i128 - m.min.y as i128) as usize;
    let h = (m.max.y as i128 - m.min.y as i128 + 1) as usize;
    a * h + b
}

/// The cell numbered `i`.
fn cell_at(m: &NavMesh, i: usize) -> (r: Pos2)
    requires
        grid_ok(m),
        i < width(m) * height(m),
    ensures
        r == cell(m, i as int),
        m.in_bounds(r),
{
    proof {
        lemma_cell(m, i as int);
        assert(height(m) <= width(m) * height(m)) by (nonlinear_arith)
            requires
                width(m) >= 1,
                height(m) >= 1,
        ;
    }
    let h = (m.max.y as i128 - m.min.y as i128 + 1) as usize;
    let q = i / h;
    let r = i % h;
    Pos2 { x: (m.min.x as i128 + q as i128) as i64, y: (m.min.y as i128 + r as i128) as i64 }
}

/// The neighbour of `p` on side `d`, when it is in bounds.
pub(crate) fn neighbor(m: &NavMesh, p: Pos2, d: usize) -> (r: Option<Pos2>)
    requires
        m.in_bounds(p),
        d < 4,
    ensures
        match r {
            Some(q) => m.in_bounds(q) && adjacent(p, q) && dir_of(p, q) == d,
            None => forall|q: Pos2| adjacent(p, q) && dir_of(p, q) == d ==> !m.in_bounds(q),
        },
{
    if d == 0 {
        if p.x < m.max.x {
            Some(Pos2 { x: p.x + 1, y: p.y })
        } else {
            None
        }
    } else if d == 1 {
        if p.x > m.min.x {
            Some(Pos2 { x: p.x - 1, y: p.y })
        } else {
            None
        }
    } else if d == 2 {
        if p.y < m.max.y {
            Some(Pos2 { x: p.x, y: p.y + 1 })
        } else {
            None
        }
    } else {
        if p.y > m.min.y {
            Some(Pos2 { x: p.x, y: p.y - 1 })
        } else {
            None
        }
    }
}

/// Two neighbours of `p` on the same side are one cell.
pub(crate) proof fn lemma_dir_unique(p: Pos2, a: Pos2, b: Pos2)
    requires
        adjacent(p, a),
        adjacent(p, b),
        dir_of(p, a) == dir_of(p, b),
    ensures
        a == b,
{
}

/// When the popped cell `open[k]` has the least `f`, its `g` is no longer
/// than any walk to it: a consistent heuristic makes A* settle cells for good.
proof fn lemma_pop_bound(st: &Search, m: &NavMesh, start: Pos2, goal: Pos2, k: int, q: Seq<Pos2>)
    requires
        st.inv(m, start, goal),
        0 <= k < st.open@.len(),
        forall|k2: int|
            0 <= k2 < st.open@.len() ==> st.f(m, goal, st.open@[k] as int) <= st.f(
                m,
                goal,
                #[trigger] st.open@[k2] as int,
            ),
        m.is_walk_between(q, start, cell(m, st.open@[k] as int)),
    ensures
        st.g@[st.open@[k] as int] <= q.len() - 1,
{
    reveal(reach_ok);
    reveal(open_ok);
    reveal(settled_ok);
    reveal(count_ok);
    let u = st.open@[k] as int;
    lemma_cell(m, u);
    lemma_idx(m, start);
    assert(st.open@.contains(u as usize));
    if q.len() == 1 {
        assert(u == idx(m, start));
    } else {
        lemma_frontier(st, m, start, goal, k, q, 0);
    }
}

proof fn lemma_frontier(st: &Search, m: &NavMesh, start: Pos2, goal: Pos2, k: int, q: Seq<Pos2>, j: int)
    requires
        st.inv(m, start, goal),
        0 <= k < st.open@.len(),
        forall|k2: int|
            0 <= k2 < st.open@.len() ==> st.f(m, goal, st.open@[k] as int) <= st.f(
                m,
                goal,
                #[trigger] st.open@[k2] as int,
            ),
        m.is_walk_between(q, start, cell(m, st.open@[k] as int)),
        q.len() >= 2,
        0 <= j < q.len(),
        forall|i: int| 0 <= i < j ==> #[trigger] st.closed@[idx(m, q[i])],
        grid_ok(m),
        0 <= st.open@[k] < width(m) * height(m),
        !st.closed@[st.open@[k] as int],
    ensures
        st.g@[st.open@[k] as int] <= q.len() - 1,
    decreases q.len() - j,
{
    let u = st.open@[k] as int;
    lemma_cell(m, u);
    lemma_walk_in_bounds(m, q, j);
    lemma_idx(m, q[j]);
    let v = idx(m, q[j]);
    if st.closed@[v] {
        if j == q.len() - 1 {
            assert(v == u);
        }
        lemma_frontier(st, m, start, goal, k, q, j + 1);
    } else {
        lemma_frontier_open(st, m, start, goal, k, q, j);
    }
}

/// The first cell `q[j]` of the walk that is not expanded is open, at most
/// `j` moves from the start.
proof fn lemma_frontier_open(st: &Search, m: &NavMesh, start: Pos2, goal: Pos2, k: int, q: Seq<Pos2>, j: int)
    requires
        st.inv(m, start, goal),
        0 <= k < st.open@.len(),
        forall|k2: int|
            0 <= k2 < st.open@.len() ==> st.f(m, goal, st.open@[k] as int) <= st.f(
                m,
                goal,
                #[trigger] st.open@[k2] as int,
            ),
        m.is_walk_between(q, start, cell(m, st.open@[k] as int)),
        q.len() >= 2,
        0 <= j < q.len(),
        forall|i: int| 0 <= i < j ==> #[trigger] st.closed@[idx(m, q[i])],
        m.in_bounds(q[j]),
        !st.closed@[idx(m, q[j])],
    ensures
        st.g@[st.open@[k] as int] <= q.len() - 1,
{
    reveal(reach_ok);
    reveal(open_ok);
    reveal(settled_ok);
    reveal(count_ok);
    let u = st.open@[k] as int;
    lemma_idx(m, q[j]);
    let v = idx(m, q[j]);
    if j == 0 {
        lemma_idx(m, start);
        assert(st.seen@[v] && st.g@[v] == 0);
    } else {
        lemma_frontier_bound(st, m, start, goal, q, j);
    }
    assert(st.open@.contains(v as usize));
    let k2 = choose|k2: int| 0 <= k2 < st.open@.len() && st.open@[k2] == v as usize;
    assert(st.f(m, goal, u) <= st.f(m, goal, st.open@[k2] as int));
    lemma_walk_manhattan(m, q, j);
}

proof fn lemma_frontier_bound(st: &Search, m: &NavMesh, start: Pos2, goal: Pos2, q: Seq<Pos2>, j: int)
    requires
        st.inv(m, start, goal),
        m.is_walk(q),
        q[0] == start,
        q.len() >= 2,
        0 < j < q.len(),
        st.closed@[idx(m, q[j - 1])],
    ensures
        st.seen@[idx(m, q[j])],
        st.closed@[idx(m, q[j])] || st.g@[idx(m, q[j])] <= j,
{
    reveal(reach_ok);
    reveal(open_ok);
    reveal(settled_ok);
    reveal(count_ok);
    let v = idx(m, q[j]);
    let w = idx(m, q[j - 1]);
    lemma_walk_in_bounds(m, q, j);
    lemma_idx(m, q[j]);
    lemma_walk_in_bounds(m, q, j - 1);
    lemma_idx(m, q[j - 1]);
    lemma_walk_prefix(m, q, j - 1);
    assert(m.is_walk_between(q.take(j), start, cell(m, w)));
    assert(st.g@[w] <= j - 1);
    let jm = j - 1;
    assert(m.step(q[jm], q[jm + 1]));
    assert(m.passable(q[j]));
    assert(st.expanded_ok(m, w, v));
}

/// With nothing left to expand, the expanded cells hold every walk from the
/// start; the goal is not among them, so no walk reaches it.
proof fn lemma_exhausted(st: &Search, m: &NavMesh, start: Pos2, goal: Pos2)
    requires
        st.inv(m, start, goal),
        st.open@.len() == 0,
    ensures
        !m.reachable(start, goal),
{
    reveal(reach_ok);
    reveal(open_ok);
    reveal(settled_ok);
    reveal(count_ok);
    if m.reachable(start, goal) {
        let q = choose|q: Seq<Pos2>| m.is_walk_between(q, start, goal);
        lemma_all_closed(st, m, start, goal, q, q.len() - 1);
    }
}

proof fn lemma_all_closed(st: &Search, m: &NavMesh, start: Pos2, goal: Pos2, q: Seq<Pos2>, i: int)
    requires
        st.inv(m, start, goal),
        st.open@.len() == 0,
        m.is_walk(q),
        q[0] == start,
        q.len() >= 2,
        0 <= i < q.len(),
    ensures
        m.in_bounds(q[i]),
        st.closed@[idx(m, q[i])],
    decreases i,
{
    reveal(reach_ok);
    reveal(open_ok);
    reveal(settled_ok);
    reveal(count_ok);
    lemma_walk_in_bounds(m, q, i);
    lemma_idx(m, q[i]);
    let v = idx(m, q[i]);
    if i == 0 {
        assert(!st.open@.contains(v as usize));
    } else {
        lemma_all_closed(st, m, start, goal, q, i - 1);
        let w = idx(m, q[i - 1]);
        lemma_idx(m, q[i - 1]);
        let im = i - 1;
        assert(m.step(q[im], q[im + 1]));
        assert(m.passable(q[i]));
        assert(st.expanded_ok(m, w, v));
        assert(!st.open@.contains(v as usize));
    }
}

impl Search {
    /// Everything unreached but the start, with the blocked cells of the
    /// rectangle looked up once.
    fn init(m: &NavMesh, start: Pos2, goal: Pos2) -> (st: Search)
        requires
            grid_ok(m),
            m.in_bounds(start),
            m.in_bounds(goal),
            start != goal,
            m.passable(start),
        ensures
            st.inv(m, start, goal),
            st.count == 0,
    {
        let ghost n = width(m) * height(m);
        proof {
            assert(height(m) <= n && width(m) <= n) by (nonlinear_arith)
                requires
                    width(m) >= 1,
                    height(m) >= 1,
                    n == width(m) * height(m),
            ;
        }
        let w = (m.max.x as i128 - m.min.x as i128 + 1) as usize;
        let h = (m.max.y as i128 - m.min.y as i128 + 1) as usize;
        let total = w * h;
        let mut blk: Vec<bool> = Vec::new();
        let mut g: Vec<usize> = Vec::new();
        let mut seen: Vec<bool> = Vec::new();
        let mut closed: Vec<bool> = Vec::new();
        let mut parent: Vec<usize> = Vec::new();
        let mut i: usize = 0;
        while i < total
            invariant
                total == n,
                i <= total,
                blk@.len() == i && g@.len() == i && seen@.len() == i && closed@.len() == i && parent@.len() == i,
                forall|k: int| 0 <= k < i ==> !(#[trigger] blk@[k]),
                forall|k: int| 0 <= k < i ==> #[trigger] g@[k] == 0,
                forall|k: int| 0 <= k < i ==> !(#[trigger] seen@[k]),
                forall|k: int| 0 <= k < i ==> !(#[trigger] closed@[k]),
            decreases total - i,
        {
            blk.push(false);
            g.push(0);
            seen.push(false);
            closed.push(false);
            parent.push(0);
            i += 1;
        }
        let cells = &m.space_lut.cells;
        let mut t: usize = 0;
        while t < cells.len()
            invariant
                grid_ok(m),
                n == width(m) * height(m),
                blk@.len() == n,
                g@.len() == n && seen@.len() == n && closed@.len() == n && parent@.len() == n,
                forall|k: int| 0 <= k < n ==> #[trigger] g@[k] == 0,
                forall|k: int| 0 <= k < n ==> !(#[trigger] seen@[k]),
                forall|k: int| 0 <= k < n ==> !(#[trigger] closed@[k]),
                t <= cells@.len(),
                cells == &m.space_lut.cells,
                forall|k: int| 0 <= k < n ==> #[trigger] blk@[k] == cells@.take(t as int).contains(cell(m, k)),
            decreases cells@.len() - t,
        {
            let c = cells[t];
            if m.is_in_bounds(&c) {
                let j = index_of(m, c);
                blk[j] = true;
                proof {
                    lemma_idx(m, c);
                }
            }
            proof {
                assert forall|k: int| 0 <= k < n implies #[trigger] blk@[k] == cells@.take(t + 1).contains(
                    cell(m, k),
                ) by {
                    lemma_cell(m, k);
                    assert(cells@.take(t + 1) == cells@.take(t as int).push(c));
                    if cell(m, k) == c {
                        assert(cells@.take(t + 1)[t as int] == c);
                    }
                }
            }
            t += 1;
        }
        proof {
            assert(cells@.take(cells@.len() as int) == cells@);
        }
        let s = index_of(m, start);
        seen[s] = true;
        let mut open: Vec<usize> = Vec::new();
        open.push(s);
        let st = Search {
            blk,
            g,
            seen,
            closed,
            parent,
            open,
            count: 0,
            closed_set: Ghost(Set::empty()),
        };
        proof {
            reveal(blk_ok);
            reveal(reach_ok);
            reveal(parents_ok);
            reveal(open_ok);
            reveal(settled_ok);
            reveal(count_ok);
            lemma_idx(m, goal);
            lemma_idx(m, start);
            assert forall|i: int| 0 <= i < n implies #[trigger] st.blk@[i] == !m.passable(cell(m, i)) by {}
            assert(st.closed_set@ =~= Set::new(|i: int| 0 <= i < n && st.closed@[i]));
            assert forall|i: int| 0 <= i < n implies (st.open@.contains(i as usize) <==> (st.seen@[i]
                && !st.closed@[i])) by {
                if i == s {
                    assert(st.open@[0] == s);
                } else {
                    assert(!st.seen@[i]);
                    if st.open@.contains(i as usize) {
                        assert(st.open@[0] == i as usize);
                    }
                }
            }
            assert forall|i: int, j: int| #[trigger] st.expanded_ok(m, i, j) by {}
        }
        st
    }

    /// Position in `open` of the cell with the least `f`; ties go to the
    /// smaller cell, by x then y.
    fn argmin(&self, m: &NavMesh, goal: Pos2) -> (k: usize)
        requires
            grid_ok(m),
            self.open@.len() > 0,
            self.g@.len() == width(m) * height(m),
            forall|k: int| 0 <= k < self.open@.len() ==> (#[trigger] self.open@[k] as int) < width(m) * height(m),
        ensures
            k < self.open@.len(),
            forall|k2: int|
                0 <= k2 < self.open@.len() ==> self.f(m, goal, self.open@[k as int] as int) <= self.f(
                    m,
                    goal,
                    #[trigger] self.open@[k2] as int,
                ),
    {
        let mut best: usize = 0;
        let b0 = self.open[0];
        let mut best_cell = cell_at(m, b0);
        let mut best_f: i128 = self.g[b0] as i128 + m.heuristic(&best_cell, &goal);
        let mut k: usize = 1;
        while k < self.open.len()
            invariant
                grid_ok(m),
                self.g@.len() == width(m) * height(m),
                forall|k: int| 0 <= k < self.open@.len() ==> (#[trigger] self.open@[k] as int) < width(m) * height(m),
                1 <= k <= self.open@.len(),
                best < self.open@.len(),
                best_cell == cell(m, self.open@[best as int] as int),
                best_f == self.f(m, goal, self.open@[best as int] as int),
                forall|k2: int|
                    0 <= k2 < k ==> best_f <= self.f(m, goal, #[trigger] self.open@[k2] as int),
            decreases self.open@.len() - k,
        {
            let c = self.open[k];
            let p = cell_at(m, c);
            let fc: i128 = self.g[c] as i128 + m.heuristic(&p, &goal);
            if fc < best_f || (fc == best_f && (p.x < best_cell.x || (p.x == best_cell.x && p.y < best_cell.y))) {
                best = k;
                best_cell = p;
                best_f = fc;
            }
            k += 1;
        }
        best
    }
}

proof fn lemma_swap_remove(s: Seq<usize>, k: int)
    requires
        s.no_duplicates(),
        0 <= k < s.len(),
    ensures
        ({
            let r = s.update(k, s.last()).drop_last();
            &&& r.no_duplicates()
            &&& forall|x: usize| r.contains(x) <==> (s.contains(x) && x != s[k])
            &&& forall|i: int| 0 <= i < r.len() ==> #[trigger] r[i] == (if i == k { s.last() } else { s[i] })
        }),
{
    let r = s.update(k, s.last()).drop_last();
    assert forall|x: usize| r.contains(x) <==> (s.contains(x) && x != s[k]) by {
        if s.contains(x) && x != s[k] {
            let i = choose|i: int| 0 <= i < s.len() && s[i] == x;
            if i == s.len() - 1 {
                assert(r[k] == x);
            } else {
                assert(r[i] == x);
            }
        }
    }
}

impl Search {
    /// Closes `open[k]` and relaxes its four neighbours: a neighbour that is
    /// passable, not yet closed, and unreached or reached by a longer route
    /// gets `g` one more than the expanded cell, and that cell as its parent.
    fn expand(&mut self, m: &NavMesh, start: Pos2, goal: Pos2, k: usize)
        requires
            old(self).inv(m, start, goal),
            k < old(self).open@.len(),
            old(self).open@[k as int] as int != idx(m, goal),
            forall|q: Seq<Pos2>|
                m.is_walk_between(q, start, cell(m, old(self).open@[k as int] as int))
                    ==> old(self).g@[old(self).open@[k as int] as int] <= q.len() - 1,
        ensures
            final(self).inv(m, start, goal),
            final(self).count == old(self).count + 1,
    {
        let ghost n = width(m) * height(m);
        let ghost old_open = self.open@;
        let ghost u0 = self.open@[k as int];
        proof {
            reveal(open_ok);
            lemma_swap_remove(self.open@, k as int);
            assert(old_open.contains(u0));
            assert((old_open[k as int] as int) < n);
            let ui = u0 as int;
            assert(self.open@.contains(ui as usize));
            assert(self.seen@[u0 as int] && !self.closed@[u0 as int]);
        }
        let u = self.open.swap_remove(k);
        proof {
            reveal(count_ok);
            let full = Set::new(|i: int| 0 <= i < n);
            assert(full =~= vstd::set_lib::set_int_range(0, n));
            vstd::set_lib::lemma_int_range(0, n);
            let bigger = self.closed_set@.insert(u as int);
            assert(bigger.subset_of(full));
            vstd::set_lib::lemma_len_subset(bigger, full);
        }
        self.closed[u] = true;
        self.closed_set = Ghost(self.closed_set@.insert(u as int));
        self.count = self.count + 1;
        let p = cell_at(m, u);
        let gu = self.g[u];
        proof {
            lemma_cell(m, u as int);
            lemma_idx(m, goal);
            assert(reach_ok(m, start, self.seen@, self.closed@, self.g@, self.count as int)) by {
                reveal(reach_ok);
            }
            assert(open_ok(m, self.open@, self.seen@, self.closed@)) by {
                reveal(open_ok);
            }
            assert(settled_ok(m, start, self.closed@, self.g@)) by {
                reveal(settled_ok);
            }
            assert(count_ok(m, goal, self.closed@, self.closed_set@, self.count as int)) by {
                reveal(count_ok);
                assert forall|i: int| #[trigger] self.closed_set@.contains(i) <==> (0 <= i < n && self.closed@[i]) by {}
            }
            assert(reach_ok(m, start, old(self).seen@, old(self).closed@, old(self).g@, old(self).count as int));
            assert(gu < self.count) by {
                reveal(reach_ok);
            }
            assert forall|i: int, j: int| i != u implies #[trigger] self.expanded_ok(m, i, j) by {
                assert(old(self).expanded_ok(m, i, j));
            }
        }
        let mut d: usize = 0;
        while d < 4
            invariant
                self.base_inv(m, start, goal),
                n == width(m) * height(m),
                u < n,
                self.closed@[u as int],
                p == cell(m, u as int),
                m.in_bounds(p),
                gu == self.g@[u as int],
                gu < self.count,
                self.count == old(self).count + 1,
                forall|i: int, j: int| i != u ==> #[trigger] self.expanded_ok(m, i, j),
                forall|j: int|
                    0 <= j < n && adjacent(p, cell(m, j)) && dir_of(p, cell(m, j)) < d ==> #[trigger] self.expanded_ok(
                        m,
                        u as int,
                        j,
                    ),
                d <= 4,
            decreases 4 - d,
        {
            let ghost before = *self;
            match neighbor(m, p, d) {
                Some(nb) => {
                    let j = index_of(m, nb);
                    proof {
                        lemma_idx(m, nb);
                    }
                    if !self.blk[j] && !self.closed[j] {
                        let t = gu + 1;
                        if !self.seen[j] || t < self.g[j] {
                            if !self.seen[j] {
                                self.open.push(j);
                                self.seen[j] = true;
                            }
                            self.g[j] = t;
                            self.parent[j] = u;
                        }
                    }
                    proof {
                        if !before.blk@[j as int] && !before.closed@[j as int] && (!before.seen@[j as int]
                            || before.g@[u as int] + 1 < before.g@[j as int]) {
                            assert(self.seen@ =~= before.seen@.update(j as int, true));
                        }
                        self.lemma_relaxed(before, m, start, goal, u as int, j as int, d as int);
                    }
                }
                None => {
                    proof {
                        assert forall|j: int|
                            0 <= j < n && adjacent(p, cell(m, j)) && dir_of(p, cell(m, j)) < d + 1 implies #[trigger] self.expanded_ok(
                            m,
                            u as int,
                            j,
                        ) by {
                            lemma_cell(m, j);
                        }
                    }
                }
            }
            d += 1;
        }
        proof {
            assert forall|i: int, j: int| #[trigger] self.expanded_ok(m, i, j) by {
                if i == u && 0 <= j < n && adjacent(p, cell(m, j)) {
                    assert(dir_of(p, cell(m, j)) < 4);
                }
            }
        }
    }

    /// Whether relaxing `j` from `u` improves it, and if so what changes.
    pub(crate) open spec fn improves(before: Search, j: int, u: int) -> bool {
        !before.blk@[j] && !before.closed@[j] && (!before.seen@[j] || before.g@[u] + 1 < before.g@[j])
    }

    pub(crate) open spec fn updated(before: Search, after: Search, j: int, u: int) -> bool {
        Search::improves(before, j, u) ==> {
            &&& after.g@ == before.g@.update(j, (before.g@[u] + 1) as usize)
            &&& after.parent@ == before.parent@.update(j, u as usize)
            &&& after.seen@ == before.seen@.update(j, true)
            &&& after.open@ == (if before.seen@[j] {
                before.open@
            } else {
                before.open@.push(j as usize)
            })
        }
    }

    /// One relaxation keeps the invariant and settles side `d` of the
    /// expanded cell `u`.
    proof fn lemma_relaxed(&self, before: Search, m: &NavMesh, start: Pos2, goal: Pos2, u: int, j: int, d: int)
        requires
            before.base_inv(m, start, goal),
            0 <= u < width(m) * height(m),
            before.closed@[u],
            before.g@[u] < before.count,
            forall|i: int, j2: int| i != u ==> #[trigger] before.expanded_ok(m, i, j2),
            forall|j2: int|
                0 <= j2 < width(m) * height(m) && adjacent(cell(m, u), cell(m, j2)) && dir_of(cell(m, u), cell(m, j2))
                    < d ==> #[trigger] before.expanded_ok(m, u, j2),
            0 <= d < 4,
            0 <= j < width(m) * height(m),
            adjacent(cell(m, u), cell(m, j)),
            dir_of(cell(m, u), cell(m, j)) == d,
            self.blk == before.blk,
            self.closed == before.closed,
            self.count == before.count,
            self.closed_set == before.closed_set,
            Search::updated(before, *self, j, u),
            !Search::improves(before, j, u) ==> self.g == before.g && self.parent == before.parent
                && self.seen == before.seen && self.open == before.open,
        ensures
            self.base_inv(m, start, goal),
            self.g@[u] == before.g@[u],
            forall|i: int, j2: int| i != u ==> #[trigger] self.expanded_ok(m, i, j2),
            forall|j2: int|
                0 <= j2 < width(m) * height(m) && adjacent(cell(m, u), cell(m, j2)) && dir_of(cell(m, u), cell(m, j2))
                    < d + 1 ==> #[trigger] self.expanded_ok(m, u, j2),
    {
        let n = width(m) * height(m);
        let s = idx(m, start);
        let upd = !before.blk@[j] && !before.closed@[j] && (!before.seen@[j] || before.g@[u] + 1 < before.g@[j]);
        lemma_cell(m, j);
        lemma_cell(m, u);
        lemma_idx(m, start);
        assert(before.blk@[j] == !m.passable(cell(m, j))) by {
            reveal(blk_ok);
        }
        if upd {
            assert(j != u);
            assert(j != s) by {
                reveal(reach_ok);
            }
            assert(reach_ok(m, start, self.seen@, self.closed@, self.g@, self.count as int)) by {
                reveal(reach_ok);
            }
            assert(parents_ok(m, start, self.seen@, self.g@, self.parent@)) by {
                reveal(parents_ok);
                reveal(reach_ok);
                assert forall|i: int| 0 <= i < n && #[trigger] self.seen@[i] && i != s implies parent_ok(
                    m,
                    self.seen@,
                    self.g@,
                    self.parent@,
                    i,
                ) by {
                    if i != j {
                        assert(parent_ok(m, before.seen@, before.g@, before.parent@, i));
                    }
                }
            }
            assert(open_ok(m, self.open@, self.seen@, self.closed@)) by {
                reveal(open_ok);
                assert forall|i: int|
                    #![trigger self.open@.contains(i as usize)]
                    #![trigger self.seen@[i]]
                    0 <= i < n implies (self.open@.contains(i as usize) <==> (self.seen@[i] && !self.closed@[i])) by {
                    if !before.seen@[j] {
                        if i != j && self.open@.contains(i as usize) {
                            let k = choose|k: int| 0 <= k < self.open@.len() && self.open@[k] == i as usize;
                            if k < before.open@.len() {
                                assert(before.open@.contains(i as usize));
                            }
                        }
                        if before.open@.contains(i as usize) {
                            let k = choose|k: int| 0 <= k < before.open@.len() && before.open@[k] == i as usize;
                            assert(self.open@[k] == i as usize);
                        }
                        if i == j {
                            assert(self.open@[before.open@.len() as int] == j as usize);
                        }
                    }
                }
                if !before.seen@[j] {
                    assert(!before.open@.contains(j as usize));
                    assert forall|k: int| 0 <= k < self.open@.len() implies (#[trigger] self.open@[k] as int) < n by {
                        if k < before.open@.len() {
                            assert((before.open@[k] as int) < n);
                        }
                    }
                }
            }
            assert(settled_ok(m, start, self.closed@, self.g@)) by {
                reveal(settled_ok);
                assert forall|i: int, q: Seq<Pos2>|
                    0 <= i < n && #[trigger] self.closed@[i] && #[trigger] m.is_walk_between(q, start, cell(m, i))
                        implies self.g@[i] <= q.len() - 1 by {
                    assert(before.closed@[i] && m.is_walk_between(q, start, cell(m, i)));
                }
            }
            assert forall|i: int, j2: int| i != u implies #[trigger] self.expanded_ok(m, i, j2) by {
                assert(before.expanded_ok(m, i, j2));
            }
            assert forall|j2: int|
                0 <= j2 < n && adjacent(cell(m, u), cell(m, j2)) && dir_of(cell(m, u), cell(m, j2)) < d + 1
                    implies #[trigger] self.expanded_ok(m, u, j2) by {
                if dir_of(cell(m, u), cell(m, j2)) < d {
                    assert(before.expanded_ok(m, u, j2));
                } else {
                    lemma_cell(m, j2);
                    lemma_dir_unique(cell(m, u), cell(m, j), cell(m, j2));
                }
            }
        } else {
            assert(self.g@ == before.g@ && self.seen@ == before.seen@ && self.parent@ == before.parent@);
            assert(self.open@ == before.open@);
            assert(!before.closed@[j] && !before.blk@[j] ==> before.seen@[j] && before.g@[j] <= before.g@[u] + 1);
            assert(before.closed@[j] ==> before.seen@[j]) by {
                reveal(reach_ok);
            }
            assert forall|j2: int|
                0 <= j2 < n && adjacent(cell(m, u), cell(m, j2)) && dir_of(cell(m, u), cell(m, j2)) < d + 1
                    implies #[trigger] self.expanded_ok(m, u, j2) by {
                if dir_of(cell(m, u), cell(m, j2)) < d {
                    assert(before.expanded_ok(m, u, j2));
                } else {
                    lemma_cell(m, j2);
                    lemma_dir_unique(cell(m, u), cell(m, j), cell(m, j2));
                }
            }
        }
    }
}

impl Search {
    /// Follows back-pointers from cell `u` to the start; the walk has at most
    /// `g[u] + 1` cells.
    fn trace(&self, m: &NavMesh, start: Pos2, goal: Pos2, u: usize) -> (r: Vec<Pos2>)
        requires
            self.base_inv(m, start, goal),
            u < width(m) * height(m),
            self.seen@[u as int],
        ensures
            m.is_walk_between(r@, start, cell(m, u as int)),
            r@.len() <= self.g@[u as int] + 1,
    {
        let ghost n = width(m) * height(m);
        let s = index_of(m, start);
        proof {
            lemma_idx(m, start);
            lemma_cell(m, u as int);
            reveal(reach_ok);
        }
        let mut cur = u;
        let mut rev: Vec<Pos2> = Vec::new();
        rev.push(cell_at(m, u));
        while cur != s
            invariant
                self.base_inv(m, start, goal),
                n == width(m) * height(m),
                s == idx(m, start),
                cur < n,
                self.seen@[cur as int],
                rev@.len() >= 1,
                rev@[0] == cell(m, u as int),
                rev@.last() == cell(m, cur as int),
                forall|i: int| 0 <= i < rev@.len() ==> m.passable(#[trigger] rev@[i]),
                forall|i: int| 0 <= i < rev@.len() - 1 ==> #[trigger] m.step(rev@[i + 1], rev@[i]),
                rev@.len() - 1 + self.g@[cur as int] <= self.g@[u as int],
            decreases self.g@[cur as int],
        {
            proof {
                reveal(parents_ok);
                reveal(reach_ok);
                assert(parent_ok(m, self.seen@, self.g@, self.parent@, cur as int));
            }
            let p = self.parent[cur];
            let c = cell_at(m, p);
            proof {
                lemma_cell(m, cur as int);
                lemma_cell(m, p as int);
            }
            let ghost prev = rev@;
            rev.push(c);
            proof {
                assert forall|i: int| 0 <= i < rev@.len() - 1 implies #[trigger] m.step(rev@[i + 1], rev@[i]) by {
                    if i < prev.len() - 1 {
                        assert(m.step(prev[i + 1], prev[i]));
                    }
                }
            }
            cur = p;
        }
        let mut path: Vec<Pos2> = Vec::new();
        let mut i: usize = rev.len();
        while i > 0
            invariant
                i <= rev@.len(),
                path@.len() == rev@.len() - i,
                forall|k: int| 0 <= k < path@.len() ==> #[trigger] path@[k] == rev@[rev@.len() - 1 - k],
            decreases i,
        {
            i -= 1;
            path.push(rev[i]);
        }
        proof {
            let l = rev@.len();
            assert forall|k: int| 0 <= k < path@.len() - 1 implies #[trigger] m.step(path@[k], path@[k + 1]) by {
                let i = l - 2 - k;
                assert(m.step(rev@[i + 1], rev@[i]));
                assert(path@[k] == rev@[l - 1 - k]);
                assert(path@[k + 1] == rev@[l - 2 - k]);
            }
            assert forall|k: int| 0 <= k < path@.len() implies m.passable(#[trigger] path@[k]) by {
                assert(m.passable(rev@[l - 1 - k]));
            }
            assert(path@[0] == rev@[l - 1]);
            assert(path@.last() == rev@[0]);
            lemma_idx(m, start);
        }
        path
    }
}

/// A* from `start`, a passable cell of the rectangle, to another cell `goal`
/// of it. Every move costs one and the estimate is the Manhattan distance,
/// which never overestimates and changes by at most one per move.
pub(crate) fn run(m: &NavMesh, start: Pos2, goal: Pos2) -> (r: Option<Vec<Pos2>>)
    requires
        grid_ok(m),
        m.in_bounds(start),
        m.in_bounds(goal),
        start != goal,
        m.passable(start),
    ensures
        match r {
            Some(w) => m.is_shortest(w@, start, goal),
            None => !m.reachable(start, goal),
        },
{
    let mut st = Search::init(m, start, goal);
    let gi = index_of(m, goal);
    proof {
        lemma_idx(m, goal);
    }
    while st.open.len() > 0
        invariant
            st.inv(m, start, goal),
            gi == idx(m, goal),
            gi < width(m) * height(m),
        decreases width(m) * height(m) - st.count,
    {
        proof {
            reveal(open_ok);
        }
        let k = st.argmin(m, goal);
        let u = st.open[k];
        proof {
            assert forall|q: Seq<Pos2>| m.is_walk_between(q, start, cell(m, u as int)) implies st.g@[u as int]
                <= q.len() - 1 by {
                lemma_pop_bound(&st, m, start, goal, k as int, q);
            }
            assert(st.open@.contains(u));
            let ui = u as int;
            assert(st.open@.contains(ui as usize));
            reveal(count_ok);
        }
        if u == gi {
            let w = st.trace(m, start, goal, u);
            proof {
                lemma_idx(m, goal);
            }
            return Some(w);
        }
        st.expand(m, start, goal, k);
        proof {
            reveal(count_ok);
        }
    }
    proof {
        lemma_exhausted(&st, m, start, goal);
    }
    None
}

} // verus!
