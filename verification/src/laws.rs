//! Round-trip laws of the transform pipeline.

use vstd::prelude::*;

verus! {

use crate::effect::Effect;
use crate::pipeline::transformed_grid;
use crate::pipeline::rm_index;
use crate::pipeline::lemma_rm_coords;
use crate::pipeline::lemma_rm_index_bounds;

/// Law: rotating by 180 degrees twice, flipping horizontally twice, or
/// flipping vertically twice returns the original grid exactly, for any
/// dimensions and any contents.
pub proof fn lemma_double_application_restores<T>(grid: Seq<T>, w: int, h: int, e: Effect)
    requires
        w >= 0,
        h >= 0,
        grid.len() == w * h,
        e == Effect::Rotate180 || e == Effect::FlipHorizontal || e == Effect::FlipVertical,
    ensures
        transformed_grid(transformed_grid(grid, w, h, e), w, h, e) == grid,
{
    let g1 = transformed_grid(grid, w, h, e);
    let g2 = transformed_grid(g1, w, h, e);
    crate::effect::lemma_effect_bijective(e, w, h);
    assert forall|d: int| 0 <= d < w * h implies g2[d] == grid[d] by {
        lemma_rm_coords(w, h, d);
        let c2 = d % w;
        let r2 = d / w;
        let c1 = e.unmap_col(w, h, c2, r2);
        let r1 = e.unmap_row(w, h, c2, r2);
        assert(0 <= c1 < w && 0 <= r1 < h);
        let e1 = rm_index(w, r1, c1);
        lemma_rm_index_bounds(w, h, r1, c1);
        assert(g2[d] == g1[e1]);
        assert(e1 % w == c1 && e1 / w == r1);
        assert(e.unmap_col(w, h, c1, r1) == c2 && e.unmap_row(w, h, c1, r1) == r2);
        assert(g1[e1] == grid[rm_index(w, r2, c2)]);
        assert(rm_index(w, r2, c2) == d);
    }
    assert(g2 =~= grid);
}

/// Law: transposing twice returns the original grid exactly, with the
/// dimensions restored, for any dimensions and any contents.
pub proof fn lemma_transpose_involution<T>(grid: Seq<T>, w: int, h: int)
    requires
        w >= 0,
        h >= 0,
        grid.len() == w * h,
    ensures
        transformed_grid(
            transformed_grid(grid, w, h, Effect::Transpose),
            h,
            w,
            Effect::Transpose,
        ) == grid,
{
    let e = Effect::Transpose;
    let g1 = transformed_grid(grid, w, h, e);
    let g2 = transformed_grid(g1, h, w, e);
    assert(h * w == w * h) by (nonlinear_arith);
    assert(g1.len() == h * w);
    assert(g2.len() == w * h);
    assert forall|d: int| 0 <= d < w * h implies g2[d] == grid[d] by {
        lemma_rm_coords(w, h, d);
        let c2 = d % w;
        let r2 = d / w;
        let e1 = rm_index(h, c2, r2);
        lemma_rm_index_bounds(h, w, c2, r2);
        assert(g2[d] == g1[e1]);
        assert(e1 % h == r2 && e1 / h == c2);
        assert(g1[e1] == grid[rm_index(w, r2, c2)]);
        assert(rm_index(w, r2, c2) == d);
    }
    assert(g2 =~= grid);
}

} // verus!

