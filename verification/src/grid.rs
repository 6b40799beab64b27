//! Row-major grids of pixels: cells, indices and adjacency.
use vstd::prelude::*;

use vstd::arithmetic::div_mod::lemma_fundamental_div_mod_converse;

verus! {

/// Two cells share an edge.
pub open spec fn adjacent(a: (int, int), b: (int, int)) -> bool {
    ||| a.0 == b.0 && (a.1 == b.1 + 1 || b.1 == a.1 + 1)
    ||| a.1 == b.1 && (a.0 == b.0 + 1 || b.0 == a.0 + 1)
}

/// The row-major index of cell `p` in a grid of width `w`.
pub open spec fn key_of(w: int, p: (int, int)) -> int {
    p.1 * w + p.0
}

/// The cell at row-major index `v` in a grid of width `w`.
pub open spec fn cell_of(w: int, v: int) -> (int, int) {
    (v % w, v / w)
}

pub proof fn lemma_key_cell(w: int, h: int, p: (int, int))
    requires
        0 <= p.0 < w,
        0 <= p.1 < h,
    ensures
        cell_of(w, key_of(w, p)) == p,
        0 <= key_of(w, p) < w * h,
{
    lemma_fundamental_div_mod_converse(key_of(w, p), w, p.1, p.0);
    assert(p.1 * w + p.0 < w * h) by (nonlinear_arith)
        requires 0 <= p.0 < w, 0 <= p.1 < h;
    assert(0 <= p.1 * w) by (nonlinear_arith)
        requires 0 <= p.1, 0 <= w;
}

pub proof fn lemma_cell_key(w: int, h: int, v: int)
    requires
        0 < w,
        0 <= v < w * h,
    ensures
        key_of(w, cell_of(w, v)) == v,
        0 <= cell_of(w, v).0 < w,
        0 <= cell_of(w, v).1 < h,
{
    vstd::arithmetic::div_mod::lemma_fundamental_div_mod(v, w);
    vstd::arithmetic::div_mod::lemma_div_pos_is_pos(v, w);
    vstd::arithmetic::div_mod::lemma_mod_pos_bound(v, w);
    let q = v / w;
    let r = v % w;
    assert(q < h) by (nonlinear_arith)
        requires v == w * q + r, 0 <= r, v < w * h, 0 < w;
    assert(key_of(w, cell_of(w, v)) == q * w + r);
    assert(q * w == w * q) by (nonlinear_arith);
}

/// The key of cell `(x, y)` in a grid of the given width.
pub fn cell_key(width: usize, height: usize, x: usize, y: usize) -> (k: u64)
    requires
        x < width,
        y < height,
        width * height <= u32::MAX,
    ensures
        k as int == key_of(width as int, (x as int, y as int)),
        k < width * height,
        cell_of(width as int, k as int) == (x as int, y as int),
{
    proof {
        lemma_key_cell(width as int, height as int, (x as int, y as int));
    }
    (y * width + x) as u64
}

} // verus!
