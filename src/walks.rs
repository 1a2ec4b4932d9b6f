use vstd::prelude::*;
use vstd::arithmetic::div_mod::{lemma_fundamental_div_mod, lemma_fundamental_div_mod_converse, lemma_mod_pos_bound};
use vstd::arithmetic::mul::lemma_mul_inequality;
use crate::navmesh::NavMesh;
use crate::pos2::{adjacent, manhattan, Pos2};

verus! {

/// Rows of the rectangle: cells per column.
pub open spec fn height(m: &NavMesh) -> int {
    m.max.y - m.min.y + 1
}

pub open spec fn width(m: &NavMesh) -> int {
    m.max.x - m.min.x + 1
}

/// The rectangle is non-empty and its cells can be numbered by `usize`.
pub open spec fn grid_ok(m: &NavMesh) -> bool {
    width(m) >= 1 && height(m) >= 1 && width(m) * height(m) <= usize::MAX
}

/// Column-major number of an in-bounds cell.
pub open spec fn idx(m: &NavMesh, p: Pos2) -> int {
    (p.x - m.min.x) * height(m) + (p.y - m.min.y)
}

/// The cell that `idx` numbers `i`.
pub open spec fn cell(m: &NavMesh, i: int) -> Pos2 {
    Pos2 { x: (m.min.x + i / height(m)) as i64, y: (m.min.y + i % height(m)) as i64 }
}

pub proof fn lemma_idx(m: &NavMesh, p: Pos2)
    requires
        grid_ok(m),
        m.in_bounds(p),
    ensures
        0 <= idx(m, p) < width(m) * height(m),
        cell(m, idx(m, p)) == p,
{
    let h = height(m);
    let a = p.x - m.min.x;
    let b = p.y - m.min.y;
    lemma_fundamental_div_mod_converse(idx(m, p), h, a, b);
    lemma_mul_inequality(a, width(m) - 1, h);
    assert((width(m) - 1) * h == width(m) * h - h) by (nonlinear_arith);
    assert(0 <= a * h) by (nonlinear_arith)
        requires
            0 <= a,
            0 <= h,
    ;
}

pub proof fn lemma_cell(m: &NavMesh, i: int)
    requires
        grid_ok(m),
        0 <= i < width(m) * height(m),
    ensures
        m.in_bounds(cell(m, i)),
        idx(m, cell(m, i)) == i,
{
    let h = height(m);
    lemma_fundamental_div_mod(i, h);
    lemma_mod_pos_bound(i, h);
    let q = i / h;
    let r = i % h;
    assert(i == h * q + r);
    assert(0 <= r < h);
    assert(h * width(m) == width(m) * h) by (nonlinear_arith);
    if q < 0 {
        assert(h * q <= -h) by (nonlinear_arith)
            requires
                h > 0,
                q < 0,
        ;
    }
    if q >= width(m) {
        assert(h * q >= h * width(m)) by (nonlinear_arith)
            requires
                h > 0,
                q >= width(m),
        ;
    }
    assert(0 <= q < width(m));
    assert(q * h == h * q) by (nonlinear_arith);
    let c = cell(m, i);
    assert(c.x == m.min.x + q);
    assert(c.y == m.min.y + i % h);
}

/// Every cell of a walk that moves at least once is in bounds.
pub proof fn lemma_walk_in_bounds(m: &NavMesh, w: Seq<Pos2>, i: int)
    requires
        m.is_walk(w),
        w.len() >= 2,
        0 <= i < w.len(),
    ensures
        m.in_bounds(w[i]),
{
    if i < w.len() - 1 {
        assert(m.step(w[i], w[i + 1]));
    } else {
        let k = i - 1;
        assert(m.step(w[k], w[k + 1]));
    }
}

/// A prefix of a walk is a walk.
pub proof fn lemma_walk_prefix(m: &NavMesh, w: Seq<Pos2>, j: int)
    requires
        m.is_walk(w),
        0 <= j < w.len(),
    ensures
        m.is_walk(w.take(j + 1)),
        w.take(j + 1)[0] == w[0],
        w.take(j + 1).last() == w[j],
{
    let p = w.take(j + 1);
    assert forall|i: int| 0 <= i < p.len() - 1 implies #[trigger] m.step(p[i], p[i + 1]) by {
        assert(m.step(w[i], w[i + 1]));
    }
    assert forall|i: int| 0 <= i < p.len() implies m.passable(#[trigger] p[i]) by {
        assert(m.passable(w[i]));
    }
}

/// A suffix of a walk is a walk.
pub proof fn lemma_walk_suffix(m: &NavMesh, w: Seq<Pos2>, j: int)
    requires
        m.is_walk(w),
        0 <= j < w.len(),
    ensures
        m.is_walk(w.skip(j)),
        w.skip(j)[0] == w[j],
        w.skip(j).last() == w.last(),
{
    let p = w.skip(j);
    assert forall|i: int| 0 <= i < p.len() - 1 implies #[trigger] m.step(p[i], p[i + 1]) by {
        assert(m.step(w[i + j], w[i + j + 1]));
    }
    assert forall|i: int| 0 <= i < p.len() implies m.passable(#[trigger] p[i]) by {
        assert(m.passable(w[i + j]));
    }
}

/// A walk needs at least as many moves as the Manhattan distance it covers.
pub proof fn lemma_walk_manhattan(m: &NavMesh, w: Seq<Pos2>, j: int)
    requires
        m.is_walk(w),
        0 <= j < w.len(),
    ensures
        manhattan(w[j], w.last()) <= w.len() - 1 - j,
    decreases w.len() - j,
{
    if j < w.len() - 1 {
        lemma_walk_manhattan(m, w, j + 1);
        assert(m.step(w[j], w[j + 1]));
    }
}

} // verus!
