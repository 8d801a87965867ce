//! Arithmetic of row-major grids and of the blocks that tile them.

use vstd::prelude::*;
use vstd::arithmetic::div_mod::{lemma_fundamental_div_mod, lemma_fundamental_div_mod_converse};

verus! {

/// Position `(px, pz)` lies inside the rectangle of `bw * bh` samples whose
/// top left corner is `(x0, z0)`.
pub open spec fn in_rect(px: int, pz: int, x0: int, z0: int, bw: int, bh: int) -> bool {
    x0 <= px < x0 + bw && z0 <= pz < z0 + bh
}

/// A position of a row-major grid below row `h` has an index below `w * h`.
pub proof fn lemma_index_in_bounds(px: int, pz: int, w: int, h: int)
    requires
        0 <= px < w,
        0 <= pz < h,
    ensures
        0 <= pz * w + px < w * h,
{
    assert(pz * w + px < w * h) by (nonlinear_arith)
        requires
            0 <= px < w,
            0 <= pz < h,
    {
        assert((pz + 1) * w <= h * w);
    }
    assert(0 <= pz * w) by (nonlinear_arith)
        requires
            0 <= pz,
            0 < w,
    ;
}

/// Two positions of a row-major grid with the same index are the same
/// position.
pub proof fn lemma_index_injective(px: int, pz: int, qx: int, qz: int, w: int)
    requires
        0 <= px < w,
        0 <= qx < w,
        pz * w + px == qz * w + qx,
    ensures
        px == qx,
        pz == qz,
{
    assert(pz == qz) by (nonlinear_arith)
        requires
            0 <= px < w,
            0 <= qx < w,
            pz * w + px == qz * w + qx,
    {
        if pz < qz {
            assert((pz + 1) * w <= qz * w);
        }
        if qz < pz {
            assert((qz + 1) * w <= pz * w);
        }
    }
    assert(pz * w == qz * w);
}

/// An index below `w * h` is the index of the position in column `i % w`,
/// row `i / w`.
pub proof fn lemma_position_of_index(i: int, w: int, h: int)
    requires
        0 <= i < w * h,
        0 <= w,
    ensures
        w > 0,
        0 <= i % w < w,
        0 <= i / w < h,
        (i / w) * w + i % w == i,
{
    assert(w > 0) by (nonlinear_arith)
        requires
            0 <= i < w * h,
            0 <= w,
    ;
    assert(h * w == w * h) by (nonlinear_arith);
    lemma_block_in_grid(i, w, h);
    lemma_block_of_position(i, w, i / w);
}

/// With blocks of `c` positions, position `p` lies in block `k` exactly when
/// `p / c` is `k`, and `p % c` is then its offset in the block.
pub proof fn lemma_block_of_position(p: int, c: int, k: int)
    requires
        c > 0,
    ensures
        (k * c <= p < k * c + c) <==> p / c == k,
        p / c == k ==> p % c == p - k * c,
{
    lemma_fundamental_div_mod(p, c);
    assert(0 <= p % c < c);
    if k * c <= p < k * c + c {
        lemma_fundamental_div_mod_converse(p, c, k, p - k * c);
    }
    if p / c == k {
        assert(c * k == k * c) by (nonlinear_arith);
    }
}

/// A position below `n * c` lies in one of the first `n` blocks of `c`
/// positions.
pub proof fn lemma_block_in_grid(p: int, c: int, n: int)
    requires
        0 <= p < n * c,
        0 <= c,
    ensures
        c > 0,
        0 <= p / c < n,
{
    assert(c > 0) by (nonlinear_arith)
        requires
            0 <= p < n * c,
            0 <= c,
    ;
    lemma_fundamental_div_mod(p, c);
    assert(0 <= p % c < c);
    let q = p / c;
    assert(0 <= q < n) by (nonlinear_arith)
        requires
            p == c * q + p % c,
            0 <= p % c < c,
            0 <= p < n * c,
            c > 0,
    ;
}

/// The block after the first `k` of `n` blocks ends inside the grid.
pub proof fn lemma_block_end(k: int, c: int, n: int)
    requires
        0 <= k < n,
        0 <= c,
    ensures
        0 <= k * c,
        k * c + c <= n * c,
{
    assert(0 <= k * c && k * c + c <= n * c) by (nonlinear_arith)
        requires
            0 <= k < n,
            0 <= c,
    ;
}

} // verus!
