//! The transform pipeline: drives a traversal of a source grid of pixels
//! through a coordinate map and scatters the values into a freshly allocated
//! destination buffer.
//!
//! A traversal is a sequence of `(row, col, value)` triples. Any traversal
//! that reports correct values and visits every cell at least once produces
//! the same output, so the row-major, column-major and block-tiled physical
//! orders are interchangeable here.

use vstd::prelude::*;

verus! {

use vstd::arithmetic::div_mod::lemma_fundamental_div_mod;
use vstd::arithmetic::div_mod::lemma_fundamental_div_mod_converse;
use vstd::arithmetic::div_mod::lemma_mod_division_less_than_divisor;
use crate::effect::Effect;

/// One pixel: three channel values.
#[derive(Clone, Copy, Debug, PartialEq, Eq, Structural)]
pub struct Rgb {
    pub red: u16,
    pub green: u16,
    pub blue: u16,
}

/// The background value a destination buffer is initialized with.
pub open spec fn rgb_black() -> Rgb {
    (Rgb { red: 0, green: 0, blue: 0 })
}

/// How the source grid is stored, which fixes the traversal order.
#[derive(Clone, Copy, Debug, PartialEq, Eq, Structural)]
pub enum Storage {
    RowMajor,
    ColMajor,
    BlockMajor,
}

/// Row-major index of the cell at `(row, col)` in a grid of width `w`.
pub open spec fn rm_index(w: int, row: int, col: int) -> int {
    row * w + col
}

/// Every triple of the traversal reports an in-range cell of a `w` by `h`
/// grid together with that cell's value.
pub open spec fn triples_consistent<T>(ts: Seq<(usize, usize, T)>, w: int, h: int, grid: Seq<T>) -> bool {
    forall|k: int|
        0 <= k < ts.len() ==> {
            &&& (#[trigger] ts[k]).0 < h
            &&& ts[k].1 < w
            &&& ts[k].2 == grid[rm_index(w, ts[k].0 as int, ts[k].1 as int)]
        }
}

/// Some triple of the traversal visits the cell at `(row, col)`.
pub open spec fn has_triple_at<T>(ts: Seq<(usize, usize, T)>, row: int, col: int) -> bool {
    exists|k: int| 0 <= k < ts.len() && (#[trigger] ts[k]).0 == row && ts[k].1 == col
}

/// The traversal visits every cell of a `w` by `h` grid at least once.
pub open spec fn triples_cover<T>(ts: Seq<(usize, usize, T)>, w: int, h: int) -> bool {
    forall|row: int, col: int|
        0 <= row < h && 0 <= col < w ==> #[trigger] has_triple_at(ts, row, col)
}

/// The destination grid that applying `e` to a `w` by `h` source grid must
/// produce: the destination cell at `(col', row')` holds the source element
/// that `e` sends there.
pub open spec fn transformed_grid<T>(grid: Seq<T>, w: int, h: int, e: Effect) -> Seq<T> {
    let dw = e.dest_width(w, h);
    let dh = e.dest_height(w, h);
    Seq::new(
        (dw * dh) as nat,
        |d: int|
            grid[rm_index(
                w,
                e.unmap_row(dw, dh, d % dw, d / dw),
                e.unmap_col(dw, dh, d % dw, d / dw),
            )],
    )
}

/// For `0 <= d < w * h`, the row-major coordinates of cell `d` in a `w` by
/// `h` grid are in range and rebuild `d`.
pub proof fn lemma_rm_coords(w: int, h: int, d: int)
    requires
        w >= 0,
        h >= 0,
        0 <= d < w * h,
    ensures
        0 <= d / w < h,
        0 <= d % w < w,
        rm_index(w, d / w, d % w) == d,
{
    assert(w >= 1 && h >= 1) by (nonlinear_arith)
        requires
            w >= 0,
            h >= 0,
            0 <= d < w * h,
    ;
    lemma_fundamental_div_mod(d, w);
    lemma_mod_division_less_than_divisor(d, w);
    assert(0 <= d / w < h) by (nonlinear_arith)
        requires
            d == w * (d / w) + d % w,
            0 <= d % w < w,
            0 <= d < w * h,
            w >= 1,
            h >= 1,
    ;
    assert((d / w) * w == w * (d / w)) by (nonlinear_arith);
}

/// The row-major index of an in-range cell is in range, and the cell is
/// recovered from it, so distinct cells have distinct row-major indices.
pub proof fn lemma_rm_index_bounds(w: int, h: int, row: int, col: int)
    requires
        0 <= row < h,
        0 <= col < w,
    ensures
        0 <= rm_index(w, row, col) < w * h,
        rm_index(w, row, col) / w == row,
        rm_index(w, row, col) % w == col,
{
    let d = rm_index(w, row, col);
    assert(0 <= d < w * h) by (nonlinear_arith)
        requires
            d == row * w + col,
            0 <= row < h,
            0 <= col < w,
    ;
    assert(d == row * w + col);
    lemma_fundamental_div_mod_converse(d, w, row, col);
}

/// Reads a row-major pixel buffer as a traversal: the `k`-th triple visits
/// the `k`-th cell in row-major order and carries its value.
pub fn row_major_triples(pixels: &Vec<Rgb>, width: usize, height: usize) -> (ts: Vec<
    (usize, usize, Rgb),
>)
    requires
        pixels@.len() == width * height,
    ensures
        ts@.len() == width * height,
        triples_consistent(ts@, width as int, height as int, pixels@),
        triples_cover(ts@, width as int, height as int),
{
    let n = pixels.len();
    let ghost w = width as int;
    let ghost h = height as int;
    let mut ts: Vec<(usize, usize, Rgb)> = Vec::new();
    let mut k: usize = 0;
    while k < n
        invariant
            0 <= k <= n,
            n == pixels@.len(),
            n == width * height,
            w == width as int,
            h == height as int,
            ts@.len() == k,
            forall|q: int|
                0 <= q < k ==> #[trigger] ts@[q] == ((q / w) as usize, (q % w) as usize, pixels@[q]),
        decreases n - k,
    {
        proof {
            lemma_rm_coords(w, h, k as int);
        }
        let row = k / width;
        let col = k % width;
        ts.push((row, col, pixels[k]));
        k = k + 1;
    }
    proof {
        assert forall|q: int| 0 <= q < ts@.len() implies {
            &&& (#[trigger] ts@[q]).0 < h
            &&& ts@[q].1 < w
            &&& ts@[q].2 == pixels@[rm_index(w, ts@[q].0 as int, ts@[q].1 as int)]
        } by {
            lemma_rm_coords(w, h, q);
        }
        assert forall|row: int, col: int|
            0 <= row < h && 0 <= col < w implies #[trigger] has_triple_at(ts@, row, col) by {
            lemma_rm_index_bounds(w, h, row, col);
            let q = rm_index(w, row, col);
            assert(0 <= q < ts@.len() && ts@[q].0 == row && ts@[q].1 == col);
        }
    }
    ts
}

/// Reads a row-major pixel buffer in column-major order: the `k`-th triple
/// visits the `k`-th cell in column-major order and carries its value.
pub fn col_major_triples(pixels: &Vec<Rgb>, width: usize, height: usize) -> (ts: Vec<
    (usize, usize, Rgb),
>)
    requires
        pixels@.len() == width * height,
    ensures
        ts@.len() == width * height,
        triples_consistent(ts@, width as int, height as int, pixels@),
        triples_cover(ts@, width as int, height as int),
{
    let n = pixels.len();
    let ghost w = width as int;
    let ghost h = height as int;
    let mut ts: Vec<(usize, usize, Rgb)> = Vec::new();
    let mut k: usize = 0;
    while k < n
        invariant
            0 <= k <= n,
            n == pixels@.len(),
            n == width * height,
            w == width as int,
            h == height as int,
            ts@.len() == k,
            forall|q: int|
                0 <= q < k ==> {
                    &&& (#[trigger] ts@[q]).0 == q % h
                    &&& ts@[q].1 == q / h
                    &&& 0 <= q % h < h
                    &&& 0 <= q / h < w
                    &&& ts@[q].2 == pixels@[rm_index(w, q % h, q / h)]
                },
        decreases n - k,
    {
        proof {
            assert(n == h * w) by (nonlinear_arith)
                requires
                    n == w * h,
            ;
            lemma_rm_coords(h, w, k as int);
            lemma_rm_index_bounds(w, h, k as int % h, k as int / h);
        }
        let row = k % height;
        let col = k / height;
        let idx = row * width + col;
        ts.push((row, col, pixels[idx]));
        k = k + 1;
    }
    proof {
        assert forall|q: int| 0 <= q < ts@.len() implies {
            &&& (#[trigger] ts@[q]).0 < h
            &&& ts@[q].1 < w
            &&& ts@[q].2 == pixels@[rm_index(w, ts@[q].0 as int, ts@[q].1 as int)]
        } by {
        }
        assert forall|row: int, col: int|
            0 <= row < h && 0 <= col < w implies #[trigger] has_triple_at(ts@, row, col) by {
            lemma_rm_index_bounds(h, w, col, row);
            let q = rm_index(h, col, row);
            assert(n == h * w) by (nonlinear_arith)
                requires
                    n == w * h,
            ;
            assert(q % h == row && q / h == col);
            assert(0 <= q < ts@.len() && ts@[q].0 == row && ts@[q].1 == col);
        }
    }
    ts
}

/// The triple `t` is sent by `e` to the destination cell at `(col, row)`,
/// where `w` and `h` are the destination grid's dimensions.
spec fn sends_to(e: Effect, w: int, h: int, t: (usize, usize, Rgb), col: int, row: int) -> bool {
    &&& e.map_col(w, h, t.1 as int, t.0 as int) == col
    &&& e.map_row(w, h, t.1 as int, t.0 as int) == row
}

/// Some triple among the first `upto` is sent by `e` to the destination cell
/// at `(col, row)`.
spec fn written(ts: Seq<(usize, usize, Rgb)>, e: Effect, w: int, h: int, upto: int, col: int, row: int) -> bool {
    exists|k: int| 0 <= k < upto && sends_to(e, w, h, #[trigger] ts[k], col, row)
}

/// Applies `effect` to a traversal of the source grid, scattering each value
/// into a `w` by `h` destination buffer at the remapped coordinates. Cells no
/// triple reaches keep the background value; when the traversal reports
/// correct values for some source grid and covers it, the result is exactly
/// the transformed grid, whatever the traversal order.
pub fn transf(triples: &Vec<(usize, usize, Rgb)>, effect: Effect, w: usize, h: usize) -> (dest:
    Vec<Rgb>)
    requires
        w * h <= usize::MAX,
        forall|k: int|
            0 <= k < triples@.len() ==> (#[trigger] triples@[k]).0 < effect.src_height(
                w as int,
                h as int,
            ) && triples@[k].1 < effect.src_width(w as int, h as int),
    ensures
        dest@.len() == w * h,
        forall|grid: Seq<Rgb>|
            (grid.len() == effect.src_width(w as int, h as int) * effect.src_height(
                w as int,
                h as int,
            ) && #[trigger] triples_consistent(
                triples@,
                effect.src_width(w as int, h as int),
                effect.src_height(w as int, h as int),
                grid,
            ) && triples_cover(
                triples@,
                effect.src_width(w as int, h as int),
                effect.src_height(w as int, h as int),
            )) ==> dest@ == transformed_grid(
                grid,
                effect.src_width(w as int, h as int),
                effect.src_height(w as int, h as int),
                effect,
            ),
{
    let ghost dw = w as int;
    let ghost dh = h as int;
    let ghost sw = effect.src_width(w as int, h as int);
    let ghost sh = effect.src_height(w as int, h as int);
    let n = w * h;
    let mut dest: Vec<Rgb> = Vec::new();
    while dest.len() < n
        invariant
            dest@.len() <= n,
            forall|q: int| 0 <= q < dest@.len() ==> dest@[q] == rgb_black(),
        decreases n - dest.len(),
    {
        dest.push(Rgb { red: 0, green: 0, blue: 0 });
    }
    proof {
        assert forall|c2: int, r2: int|
            0 <= c2 < dw && 0 <= r2 < dh implies 0 <= #[trigger] rm_index(dw, r2, c2) < n
            && dest@[rm_index(dw, r2, c2)] == rgb_black() by {
            lemma_rm_index_bounds(dw, dh, r2, c2);
        }
    }
    let mut k: usize = 0;
    while k < triples.len()
        invariant
            0 <= k <= triples@.len(),
            n == w * h,
            dw == w as int,
            dh == h as int,
            sw == effect.src_width(dw, dh),
            sh == effect.src_height(dw, dh),
            dest@.len() == n,
            forall|k2: int|
                0 <= k2 < triples@.len() ==> (#[trigger] triples@[k2]).0 < sh && triples@[k2].1
                    < sw,
            forall|c2: int, r2: int|
                0 <= c2 < dw && 0 <= r2 < dh && !written(triples@, effect, dw, dh, k as int, c2, r2)
                    ==> dest@[#[trigger] rm_index(dw, r2, c2)] == rgb_black(),
            forall|c2: int, r2: int|
                0 <= c2 < dw && 0 <= r2 < dh && written(triples@, effect, dw, dh, k as int, c2, r2)
                    ==> exists|k2: int|
                    0 <= k2 < k && sends_to(effect, dw, dh, #[trigger] triples@[k2], c2, r2)
                        && dest@[#[trigger] rm_index(dw, r2, c2)] == triples@[k2].2,
        decreases triples@.len() - k,
    {
        let t = triples[k];
        let cr = effect.apply(w, h, t.1, t.0);
        proof {
            lemma_rm_index_bounds(dw, dh, cr.1 as int, cr.0 as int);
        }
        let d = cr.1 * w + cr.0;
        let slot = &mut dest[d];
        *slot = t.2;
        k = k + 1;
        proof {
            let ghost prev = k as int - 1;
            assert(sends_to(effect, dw, dh, triples@[prev], cr.0 as int, cr.1 as int));
            assert forall|c2: int, r2: int|
                0 <= c2 < dw && 0 <= r2 < dh && !written(triples@, effect, dw, dh, k as int, c2, r2)
                    implies dest@[#[trigger] rm_index(dw, r2, c2)] == rgb_black() by {
                assert(!written(triples@, effect, dw, dh, prev, c2, r2));
                assert(!(c2 == cr.0 as int && r2 == cr.1 as int));
                lemma_rm_index_bounds(dw, dh, r2, c2);
                lemma_rm_index_bounds(dw, dh, cr.1 as int, cr.0 as int);
            }
            assert forall|c2: int, r2: int|
                0 <= c2 < dw && 0 <= r2 < dh && written(triples@, effect, dw, dh, k as int, c2, r2)
                    implies exists|k2: int|
                    0 <= k2 < k && sends_to(effect, dw, dh, #[trigger] triples@[k2], c2, r2)
                        && dest@[rm_index(dw, r2, c2)] == triples@[k2].2 by {
                lemma_rm_index_bounds(dw, dh, r2, c2);
                lemma_rm_index_bounds(dw, dh, cr.1 as int, cr.0 as int);
                if c2 == cr.0 as int && r2 == cr.1 as int {
                    assert(sends_to(effect, dw, dh, triples@[prev], c2, r2));
                    assert(dest@[rm_index(dw, r2, c2)] == triples@[prev].2);
                } else {
                    let k2 = choose|k2: int|
                        0 <= k2 < k && sends_to(effect, dw, dh, #[trigger] triples@[k2], c2, r2);
                    assert(k2 != prev);
                    assert(written(triples@, effect, dw, dh, prev, c2, r2));
                }
            }
        }
    }
    proof {
        assert forall|grid: Seq<Rgb>|
            (grid.len() == sw * sh && #[trigger] triples_consistent(triples@, sw, sh, grid)
                && triples_cover(triples@, sw, sh)) implies dest@ == transformed_grid(
            grid,
            sw,
            sh,
            effect,
        ) by {
            let tg = transformed_grid(grid, sw, sh, effect);
            assert(effect.dest_width(sw, sh) == dw && effect.dest_height(sw, sh) == dh);
            crate::effect::lemma_effect_bijective(effect, dw, dh);
            assert forall|d: int| 0 <= d < n implies dest@[d] == tg[d] by {
                lemma_rm_coords(dw, dh, d);
                let c2 = d % dw;
                let r2 = d / dw;
                let c = effect.unmap_col(dw, dh, c2, r2);
                let r = effect.unmap_row(dw, dh, c2, r2);
                assert(0 <= c < sw && 0 <= r < sh);
                assert(has_triple_at(triples@, r, c));
                let kw = choose|kw: int|
                    0 <= kw < triples@.len() && (#[trigger] triples@[kw]).0 == r && triples@[kw].1
                        == c;
                assert(effect.map_col(dw, dh, c, r) == c2 && effect.map_row(dw, dh, c, r) == r2);
                assert(sends_to(effect, dw, dh, triples@[kw], c2, r2));
                assert(written(triples@, effect, dw, dh, triples@.len() as int, c2, r2));
                let k2 = choose|k2: int|
                    0 <= k2 < triples@.len() && sends_to(
                        effect,
                        dw,
                        dh,
                        #[trigger] triples@[k2],
                        c2,
                        r2,
                    ) && dest@[rm_index(dw, r2, c2)] == triples@[k2].2;
                let c3 = triples@[k2].1 as int;
                let r3 = triples@[k2].0 as int;
                assert(effect.map_col(dw, dh, c3, r3) == c2 && effect.map_row(dw, dh, c3, r3)
                    == r2);
                assert(effect.unmap_col(dw, dh, c2, r2) == c3 && effect.unmap_row(dw, dh, c2, r2)
                    == r3);
                assert(dest@[rm_index(dw, r2, c2)] == grid[rm_index(sw, r, c)]);
                assert(rm_index(dw, r2, c2) == d);
                assert(tg[d] == grid[rm_index(sw, r, c)]);
            }
            assert(dest@ =~= tg);
        }
    }
    dest
}

/// What block-major storage demands of the source dimensions: the grid is
/// square and the band size derived from the pixel size divides its height.
pub open spec fn block_major_ready(w: int, h: int) -> bool {
    &&& vstd::layout::size_of::<Rgb>() >= 1
    &&& crate::block::budget_blocksize::<Rgb>() >= 1
    &&& w == h
    &&& h % (crate::block::budget_blocksize::<Rgb>() as int) == 0
}

/// Applies `effect` to a `width` by `height` row-major pixel buffer, reading
/// it in the traversal order that `storage` fixes, and returns the
/// transformed buffer together with its dimensions. The result does not
/// depend on the storage mode.
pub fn transform(
    pixels: Vec<Rgb>,
    width: usize,
    height: usize,
    storage: Storage,
    effect: Effect,
) -> (out: (Vec<Rgb>, usize, usize))
    requires
        pixels@.len() == width * height,
        storage == Storage::BlockMajor ==> block_major_ready(width as int, height as int),
    ensures
        out.1 == effect.dest_width(width as int, height as int),
        out.2 == effect.dest_height(width as int, height as int),
        out.0@ == transformed_grid(pixels@, width as int, height as int, effect),
{
    let ghost w = width as int;
    let ghost h = height as int;
    let ghost gpix = pixels@;
    let swaps = effect.swaps();
    let new_w = if swaps {
        height
    } else {
        width
    };
    let new_h = if swaps {
        width
    } else {
        height
    };
    let ghost dw = new_w as int;
    let ghost dh = new_h as int;
    proof {
        assert(effect.src_width(dw, dh) == w && effect.src_height(dw, dh) == h);
        assert(dw * dh == w * h) by (nonlinear_arith)
            requires
                (dw == w && dh == h) || (dw == h && dh == w),
        ;
        assert(effect.dest_width(w, h) == dw && effect.dest_height(w, h) == dh);
        assert(pixels.len() <= usize::MAX);
        assert(dw * dh <= usize::MAX);
    }
    let ts: Vec<(usize, usize, Rgb)> = match storage {
        Storage::RowMajor => row_major_triples(&pixels, width, height),
        Storage::ColMajor => col_major_triples(&pixels, width, height),
        Storage::BlockMajor => {
            let a = crate::block::Array2b::<Rgb>::from_row_major_16k_block(width, height, pixels);
            let ts = a.iter();
            proof {
                lemma_block_triples_good(a, ts@);
            }
            ts
        },
    };
    proof {
        assert(triples_consistent(ts@, effect.src_width(dw, dh), effect.src_height(dw, dh), gpix));
        assert(triples_cover(ts@, effect.src_width(dw, dh), effect.src_height(dw, dh)));
    }
    let dest = transf(&ts, effect, new_w, new_h);
    (dest, new_w, new_h)
}

/// A well-formed block-tiled array's physical-order read-out is a correct and
/// covering traversal of its logical grid.
proof fn lemma_block_triples_good(a: crate::block::Array2b<Rgb>, ts: Seq<(usize, usize, Rgb)>)
    requires
        a.wf(),
        a.width() == a.height(),
        ts.len() == a.width() * a.height(),
        forall|p: int|
            0 <= p < ts.len() ==> {
                &&& (#[trigger] ts[p]).0 == crate::block::phys_row(a.blocksize(), a.height(), p)
                &&& ts[p].1 == crate::block::phys_col(a.blocksize(), a.height(), p)
                &&& ts[p].0 < a.height()
                &&& ts[p].1 < a.width()
                &&& ts[p].2 == a@[ts[p].0 as int * a.width() + ts[p].1 as int]
            },
    ensures
        triples_consistent(ts, a.width(), a.height(), a@),
        triples_cover(ts, a.width(), a.height()),
{
    let w = a.width();
    let h = a.height();
    let bs = a.blocksize();
    a.lemma_wf_grid_len();
    assert forall|k: int| 0 <= k < ts.len() implies {
        &&& (#[trigger] ts[k]).0 < h
        &&& ts[k].1 < w
        &&& ts[k].2 == a@[rm_index(w, ts[k].0 as int, ts[k].1 as int)]
    } by {
        assert(rm_index(w, ts[k].0 as int, ts[k].1 as int) == ts[k].0 as int * w + ts[k].1 as int);
    }
    assert forall|row: int, col: int|
        0 <= row < h && 0 <= col < w implies #[trigger] has_triple_at(ts, row, col) by {
        crate::block::lemma_phys_index_bijective(bs, h, row, col);
        let p = crate::block::phys_index(bs, h, row, col);
        assert(w * h == h * h) by (nonlinear_arith)
            requires
                w == h,
        ;
        assert(0 <= p < ts.len());
        assert(ts[p].0 == row && ts[p].1 == col);
    }
}

} // verus!
