//! A fixed-size two-dimensional container that stores its elements in a
//! block-tiled physical layout.
//!
//! The backing buffer holds the grid split into horizontal bands of
//! `blocksize` rows; each band is stored contiguously, and within a band
//! advancing one logical column advances the physical index by `blocksize`.
//! The element at logical `(row, col)` lives at physical index
//! `col * blocksize + (row / blocksize) * (blocksize * height) + row % blocksize`.
//! This layout addresses the whole buffer exactly once only when the grid is
//! square and `blocksize` divides `height`, so construction demands both.

use vstd::prelude::*;

verus! {

use vstd::arithmetic::div_mod::lemma_fundamental_div_mod;
use vstd::arithmetic::div_mod::lemma_fundamental_div_mod_converse;
use vstd::arithmetic::div_mod::lemma_mod_division_less_than_divisor;
use vstd::arithmetic::div_mod::lemma_mod_mod;

/// Physical index of the element at logical `(row, col)` in a grid of height
/// `h` stored in bands of `bs` rows.
pub open spec fn phys_index(bs: int, h: int, row: int, col: int) -> int {
    col * bs + (row / bs) * (bs * h) + row % bs
}

/// Logical row of the element at physical index `p`.
pub open spec fn phys_row(bs: int, h: int, p: int) -> int {
    (p / (bs * h)) * bs + p % bs
}

/// Logical column of the element at physical index `p`.
pub open spec fn phys_col(bs: int, h: int, p: int) -> int {
    (p / bs) % h
}

/// The logical grid, in row-major order, read off a physical buffer `data`
/// laid out with band size `bs` for a square grid of width and height `h`.
pub open spec fn grid_of<T>(h: int, bs: int, data: Seq<T>) -> Seq<T> {
    Seq::new((h * h) as nat, |i: int| data[phys_index(bs, h, i / h, i % h)])
}

/// For a square grid with a band size that divides its height, the physical
/// index of every logical position is in range, and the logical coordinates
/// are recovered from it exactly.
pub proof fn lemma_phys_index_bijective(bs: int, h: int, row: int, col: int)
    requires
        bs >= 1,
        h % bs == 0,
        0 <= row < h,
        0 <= col < h,
    ensures
        0 <= phys_index(bs, h, row, col) < h * h,
        phys_row(bs, h, phys_index(bs, h, row, col)) == row,
        phys_col(bs, h, phys_index(bs, h, row, col)) == col,
{
    let q = row / bs;
    let s = row % bs;
    let m = h / bs;
    lemma_fundamental_div_mod(row, bs);
    lemma_mod_division_less_than_divisor(row, bs);
    lemma_fundamental_div_mod(h, bs);
    assert(h == bs * m);
    assert(0 <= q < m) by (nonlinear_arith)
        requires
            row == bs * q + s,
            0 <= s < bs,
            0 <= row < h,
            h == bs * m,
            bs >= 1,
    ;
    let p = phys_index(bs, h, row, col);
    assert(p == col * bs + q * (bs * h) + s);
    assert(0 <= p < h * h) by (nonlinear_arith)
        requires
            p == col * bs + q * (bs * h) + s,
            0 <= col < h,
            0 <= q <= m - 1,
            0 <= s < bs,
            h == bs * m,
            bs >= 1,
    ;
    // p divided by bs gives col + q * h with remainder s.
    assert(p == (col + q * h) * bs + s) by (nonlinear_arith)
        requires
            p == col * bs + q * (bs * h) + s,
    ;
    lemma_fundamental_div_mod_converse(p, bs, col + q * h, s);
    assert(p / bs == col + q * h);
    assert(p % bs == s);
    // (col + q * h) % h == col, so the column is recovered.
    assert((col + q * h) == q * h + col);
    lemma_fundamental_div_mod_converse(col + q * h, h, q, col);
    assert(phys_col(bs, h, p) == col);
    // p divided by bs * h gives q with remainder col * bs + s.
    assert(0 <= col * bs + s < bs * h && p == q * (bs * h) + (col * bs + s)) by (nonlinear_arith)
        requires
            p == col * bs + q * (bs * h) + s,
            0 <= col < h,
            0 <= s < bs,
            bs >= 1,
            h >= 1,
    ;
    lemma_fundamental_div_mod_converse(p, bs * h, q, col * bs + s);
    assert(p / (bs * h) == q);
    assert(phys_row(bs, h, p) == q * bs + s);
    assert(q * bs == bs * q);
}

/// For a square grid with a band size that divides its height, every physical
/// index addresses an in-range logical position, and is itself recovered from
/// those coordinates exactly.
pub proof fn lemma_phys_index_inverse(bs: int, h: int, p: int)
    requires
        bs >= 1,
        h >= 0,
        h % bs == 0,
        0 <= p < h * h,
    ensures
        0 <= phys_row(bs, h, p) < h,
        0 <= phys_col(bs, h, p) < h,
        phys_index(bs, h, phys_row(bs, h, p), phys_col(bs, h, p)) == p,
{
    let m = h / bs;
    lemma_fundamental_div_mod(h, bs);
    assert(h == bs * m);
    assert(h >= 1 && m >= 1 && bs <= h) by (nonlinear_arith)
        requires
            h == bs * m,
            bs >= 1,
            h >= 0,
            h * h > p,
            p >= 0,
    ;
    let big = p / (bs * h);
    let j = p % (bs * h);
    let s = p % bs;
    assert(bs * h >= 1) by (nonlinear_arith)
        requires
            bs >= 1,
            h >= 1,
    ;
    lemma_fundamental_div_mod(p, bs * h);
    lemma_mod_division_less_than_divisor(p, bs * h);
    assert(p == (bs * h) * big + j);
    assert(0 <= big < m) by (nonlinear_arith)
        requires
            p == (bs * h) * big + j,
            0 <= j < bs * h,
            0 <= p < h * h,
            h == bs * m,
    ;
    lemma_mod_mod(p, bs, h);
    assert(j % bs == s);
    lemma_fundamental_div_mod(j, bs);
    lemma_mod_division_less_than_divisor(j, bs);
    let t = j / bs;
    assert(j == bs * t + s);
    assert(0 <= t < h) by (nonlinear_arith)
        requires
            j == bs * t + s,
            0 <= j < bs * h,
            0 <= s < bs,
            bs >= 1,
    ;
    // p divided by bs gives big * h + t with remainder s.
    assert(p == (big * h + t) * bs + s) by (nonlinear_arith)
        requires
            p == (bs * h) * big + j,
            j == bs * t + s,
    ;
    lemma_fundamental_div_mod_converse(p, bs, big * h + t, s);
    assert(p / bs == big * h + t);
    assert(big * h + t == t + big * h);
    lemma_fundamental_div_mod_converse(big * h + t, h, big, t);
    assert(phys_col(bs, h, p) == t);
    let row = phys_row(bs, h, p);
    assert(row == big * bs + s);
    assert(0 <= row < h) by (nonlinear_arith)
        requires
            row == big * bs + s,
            0 <= big <= m - 1,
            0 <= s < bs,
            h == bs * m,
            bs >= 1,
    ;
    assert(row == bs * big + s) by (nonlinear_arith)
        requires
            row == big * bs + s,
    ;
    lemma_fundamental_div_mod_converse(row, bs, big, s);
    assert(row / bs == big && row % bs == s);
    assert(phys_index(bs, h, row, t) == t * bs + big * (bs * h) + s);
    assert(t * bs + big * (bs * h) + s == p) by (nonlinear_arith)
        requires
            p == (bs * h) * big + j,
            j == bs * t + s,
    ;
}

/// A band of `bs` rows is never larger than the whole square buffer.
proof fn lemma_band_fits(bs: int, h: int)
    requires
        bs >= 1,
        h >= 0,
        h % bs == 0,
    ensures
        0 <= bs * h,
        bs * h <= h * h,
{
    let m = h / bs;
    lemma_fundamental_div_mod(h, bs);
    vstd::arithmetic::div_mod::lemma_div_pos_is_pos(h, bs);
    assert(h == bs * m);
    assert(0 <= bs * h && bs * h <= h * h) by (nonlinear_arith)
        requires
            h == bs * m,
            bs >= 1,
            m >= 0,
            h >= 0,
    ;
}

/// Floor of the square root: the largest `r` with `r * r <= n`.
pub open spec fn sqrt_floor(n: nat) -> nat
    decreases n,
{
    if n == 0 {
        0
    } else {
        let r = sqrt_floor((n - 1) as nat);
        if (r + 1) * (r + 1) <= n {
            (r + 1) as nat
        } else {
            r
        }
    }
}

/// `sqrt_floor(n)` squares to at most `n`, and is the largest such number.
pub proof fn lemma_sqrt_floor_bounds(n: nat)
    ensures
        sqrt_floor(n) * sqrt_floor(n) <= n,
        n < (sqrt_floor(n) + 1) * (sqrt_floor(n) + 1),
    decreases n,
{
    if n > 0 {
        lemma_sqrt_floor_bounds((n - 1) as nat);
        let r = sqrt_floor((n - 1) as nat);
        assert(r * r <= n - 1 && (n - 1) < (r + 1) * (r + 1));
        if (r + 1) * (r + 1) <= n {
            assert(sqrt_floor(n) == r + 1);
            assert(n <= (r + 1) * (r + 1));
            assert((r + 1) * (r + 1) < (r + 2) * (r + 2)) by (nonlinear_arith)
                requires
                    r >= 0,
            ;
            assert(sqrt_floor(n) * sqrt_floor(n) <= n);
            assert(n < (sqrt_floor(n) + 1) * (sqrt_floor(n) + 1)) by (nonlinear_arith)
                requires
                    sqrt_floor(n) == r + 1,
                    n <= (r + 1) * (r + 1),
                    r >= 0,
            ;
        } else {
            assert(sqrt_floor(n) == r);
            assert(sqrt_floor(n) * sqrt_floor(n) <= n);
            assert(n < (sqrt_floor(n) + 1) * (sqrt_floor(n) + 1)) by (nonlinear_arith)
                requires
                    sqrt_floor(n) == r,
                    n < (r + 1) * (r + 1),
            ;
        }
    } else {
        assert(sqrt_floor(n) == 0);
        assert(sqrt_floor(n) * sqrt_floor(n) <= n);
        assert(n < (sqrt_floor(n) + 1) * (sqrt_floor(n) + 1)) by (nonlinear_arith)
            requires
                n == 0,
                sqrt_floor(n) == 0,
        ;
    }
}

/// The band size that makes one tile of `blocksize * blocksize` elements of
/// `T` occupy roughly 16000 bytes.
pub open spec fn budget_blocksize<T>() -> nat {
    sqrt_floor((16000 as nat) / vstd::layout::size_of::<T>())
}

/// Floor of the square root, executably.
fn isqrt(n: usize) -> (r: usize)
    ensures
        r == sqrt_floor(n as nat),
{
    let mut r: usize = 0;
    while r + 1 <= n / (r + 1)
        invariant
            r <= n,
            r < usize::MAX,
            (r as int) * (r as int) <= n as int,
        decreases n - r,
    {
        proof {
            lemma_fundamental_div_mod(n as int, (r as int + 1));
            lemma_mod_division_less_than_divisor(n as int, (r as int + 1));
            assert((r as int + 1) * (r as int + 1) <= n as int) by (nonlinear_arith)
                requires
                    n as int == (r as int + 1) * (n as int / (r as int + 1)) + n as int % (r as int + 1),
                    n as int % (r as int + 1) >= 0,
                    r + 1 <= n as int / (r as int + 1),
                    r >= 0,
            ;
            assert(r + 1 <= n) by (nonlinear_arith)
                requires
                    (r as int + 1) * (r as int + 1) <= n as int,
                    r >= 0,
            ;
            assert(r as int + 1 < usize::MAX) by (nonlinear_arith)
                requires
                    (r as int + 1) * (r as int + 1) <= n as int,
                    n <= usize::MAX,
                    usize::MAX >= 3,
                    r >= 0,
            ;
        }
        r = r + 1;
    }
    proof {
        lemma_fundamental_div_mod(n as int, (r as int + 1));
        lemma_mod_division_less_than_divisor(n as int, (r as int + 1));
        assert((n as int) < (r as int + 1) * (r as int + 1)) by (nonlinear_arith)
            requires
                n as int == (r as int + 1) * (n as int / (r as int + 1)) + n as int % (r as int + 1),
                n as int % (r as int + 1) < (r as int + 1),
                n as int / (r as int + 1) < r + 1,
                r >= 0,
        ;
        lemma_sqrt_floor_bounds(n as nat);
        let sf = sqrt_floor(n as nat);
        assert(r == sf) by (nonlinear_arith)
            requires
                (r as int) * (r as int) <= n as int,
                (n as int) < (r as int + 1) * (r as int + 1),
                sf * sf <= n as nat,
                (n as nat) < (sf + 1) * (sf + 1),
                r >= 0,
                sf >= 0,
        ;
    }
    r
}

/// A square two-dimensional array whose backing buffer is block-tiled.
#[derive(Clone, Debug, PartialEq, Eq)]
pub struct Array2b<T: Copy> {
    width: usize,
    height: usize,
    blocksize: usize,
    data: Vec<T>,
}

impl<T: Copy> View for Array2b<T> {
    type V = Seq<T>;

    /// The logical grid in row-major order: element `(row, col)` is
    /// `self@[row * width + col]`.
    closed spec fn view(&self) -> Seq<T> {
        grid_of(self.height as int, self.blocksize as int, self.data@)
    }
}

impl<T: Copy> Array2b<T> {
    /// Logical width of the array.
    pub closed spec fn width(&self) -> int {
        self.width as int
    }

    /// Logical height of the array.
    pub closed spec fn height(&self) -> int {
        self.height as int
    }

    /// Number of rows in one horizontal band of the physical layout.
    pub closed spec fn blocksize(&self) -> int {
        self.blocksize as int
    }

    /// The structural invariant: the array is square, the band size is
    /// positive and divides the height, and the buffer holds one element per
    /// logical position.
    pub closed spec fn wf(&self) -> bool {
        &&& self.width == self.height
        &&& self.blocksize >= 1
        &&& self.height as int % self.blocksize as int == 0
        &&& self.data@.len() == self.width * self.height
    }

    /// A well-formed array's grid has one element per logical position.
    pub proof fn lemma_wf_grid_len(&self)
        requires
            self.wf(),
        ensures
            self@.len() == self.width() * self.height(),
            self.width() == self.height(),
            self.blocksize() >= 1,
            self.height() % self.blocksize() == 0,
    {
    }

    /// Allocates a `width` by `height` array filled with `val`.
    pub fn new(width: usize, height: usize, blocksize: usize, val: T) -> (a: Self)
        requires
            width == height,
            blocksize >= 1,
            height as int % blocksize as int == 0,
            width * height <= usize::MAX,
        ensures
            a.wf(),
            a.width() == width,
            a.height() == height,
            a.blocksize() == blocksize,
            a@.len() == width * height,
            forall|i: int| 0 <= i < a@.len() ==> a@[i] == val,
    {
        let n = width * height;
        let mut data: Vec<T> = Vec::new();
        while data.len() < n
            invariant
                data.len() <= n,
                forall|p: int| 0 <= p < data.len() ==> data@[p] == val,
            decreases n - data.len(),
        {
            data.push(val);
        }
        let a = Array2b { width, height, blocksize, data };
        proof {
            assert forall|i: int| 0 <= i < a@.len() implies a@[i] == val by {
                lemma_row_major_coords(height as int, i);
                lemma_phys_index_bijective(blocksize as int, height as int, i / height as int, i % height as int);
            }
        }
        a
    }

    /// Allocates a `width` by `height` array filled with `val`, deriving the
    /// band size from the element size so that one tile of
    /// `blocksize * blocksize` elements occupies roughly 16000 bytes.
    pub fn new16k_block(width: usize, height: usize, val: T) -> (a: Self)
        requires
            vstd::layout::size_of::<T>() >= 1,
            budget_blocksize::<T>() >= 1,
            width == height,
            height as int % (budget_blocksize::<T>() as int) == 0,
            width * height <= usize::MAX,
        ensures
            a.wf(),
            a.width() == width,
            a.height() == height,
            a.blocksize() == budget_blocksize::<T>(),
            a@.len() == width * height,
            forall|i: int| 0 <= i < a@.len() ==> a@[i] == val,
    {
        let size = core::mem::size_of::<T>();
        let blocksize = isqrt(16000 / size);
        Self::new(width, height, blocksize, val)
    }

    /// Wraps a row-major buffer: the element at `(row, col)` of the result is
    /// `values[row * width + col]`, scattered into the block-tiled layout.
    pub fn from_row_major(width: usize, height: usize, blocksize: usize, values: Vec<T>) -> (a:
        Self)
        requires
            width == height,
            blocksize >= 1,
            height as int % blocksize as int == 0,
            values@.len() == width * height,
        ensures
            a.wf(),
            a.width() == width,
            a.height() == height,
            a.blocksize() == blocksize,
            a@ == values@,
    {
        let n = values.len();
        let ghost h = height as int;
        let ghost bs = blocksize as int;
        proof {
            lemma_band_fits(bs, h);
            assert(h * h == width as int * height as int) by (nonlinear_arith)
                requires
                    h == width as int,
                    h == height as int,
            ;
            assert(h * h <= usize::MAX);
        }
        let band = blocksize * height;
        let mut data: Vec<T> = Vec::new();
        let mut p: usize = 0;
        while p < n
            invariant
                0 <= p <= n,
                n == values@.len(),
                n == width * height,
                n as int == h * h,
                width == height,
                h == height as int,
                bs == blocksize as int,
                bs >= 1,
                h % bs == 0,
                band == blocksize * height,
                data@.len() == p,
                forall|q: int|
                    0 <= q < p ==> data@[q] == values@[phys_row(bs, h, q) * h + phys_col(bs, h, q)],
            decreases n - p,
        {
            proof {
                assert(h >= 1) by (nonlinear_arith)
                    requires
                        h * h > 0,
                        h >= 0,
                ;
                assert(band >= 1) by (nonlinear_arith)
                    requires
                        band == bs * h,
                        bs >= 1,
                        h >= 1,
                ;
                lemma_phys_index_inverse(bs, h, p as int);
                assert(phys_row(bs, h, p as int) * h + phys_col(bs, h, p as int) < h * h) by (nonlinear_arith)
                    requires
                        0 <= phys_row(bs, h, p as int) < h,
                        0 <= phys_col(bs, h, p as int) < h,
                ;
            }
            let row = (p / band) * blocksize + p % blocksize;
            let col = (p / blocksize) % height;
            let idx = row * height + col;
            data.push(values[idx]);
            p = p + 1;
        }
        let a = Array2b { width, height, blocksize, data };
        proof {
            assert forall|i: int| 0 <= i < h * h implies a@[i] == values@[i] by {
                lemma_row_major_coords(h, i);
                lemma_phys_index_bijective(bs, h, i / h, i % h);
            }
            assert(a@ =~= values@);
        }
        a
    }

    /// Wraps a row-major buffer, deriving the band size from the element size
    /// as `new16k_block` does.
    pub fn from_row_major_16k_block(width: usize, height: usize, values: Vec<T>) -> (a: Self)
        requires
            vstd::layout::size_of::<T>() >= 1,
            budget_blocksize::<T>() >= 1,
            width == height,
            height as int % (budget_blocksize::<T>() as int) == 0,
            values@.len() == width * height,
        ensures
            a.wf(),
            a.width() == width,
            a.height() == height,
            a.blocksize() == budget_blocksize::<T>(),
            a@ == values@,
    {
        let size = core::mem::size_of::<T>();
        let blocksize = isqrt(16000 / size);
        Self::from_row_major(width, height, blocksize, values)
    }

    /// Physical index of the element at logical `(row_pos, col_pos)`, or
    /// `None` when either coordinate is out of range.
    pub fn get_index(&self, row_pos: usize, col_pos: usize) -> (r: Option<usize>)
        requires
            self.wf(),
        ensures
            row_pos < self.height() && col_pos < self.width() ==> r == Some(
                phys_index(self.blocksize(), self.height(), row_pos as int, col_pos as int) as usize,
            ),
            !(row_pos < self.height() && col_pos < self.width()) ==> r is None,
    {
        if col_pos < self.width && row_pos < self.height {
            proof {
                let bs = self.blocksize as int;
                let h = self.height as int;
                lemma_phys_index_bijective(bs, h, row_pos as int, col_pos as int);
                lemma_band_fits(bs, h);
                vstd::arithmetic::div_mod::lemma_div_pos_is_pos(row_pos as int, bs);
                lemma_mod_division_less_than_divisor(row_pos as int, bs);
                assert(col_pos as int * bs >= 0 && (row_pos as int / bs) * (bs * h) >= 0)
                    by (nonlinear_arith)
                    requires
                        bs >= 1,
                        h >= 0,
                        col_pos as int >= 0,
                        row_pos as int / bs >= 0,
                ;
                assert(self.data.len() <= usize::MAX);
                assert(h * h == self.width() * self.height()) by (nonlinear_arith)
                    requires
                        h == self.width(),
                        h == self.height(),
                ;
                assert(h * h <= usize::MAX);
            }
            Some(
                (col_pos * self.blocksize) + ((row_pos / self.blocksize) * (self.blocksize
                    * self.height)) + (row_pos % self.blocksize),
            )
        } else {
            None
        }
    }

    /// Bounds-checked logical read: the element at `(row_pos, col_pos)`, or
    /// `None` when either coordinate is out of range.
    pub fn get(&self, row_pos: usize, col_pos: usize) -> (r: Option<&T>)
        requires
            self.wf(),
        ensures
            row_pos < self.height() && col_pos < self.width() ==> r is Some && *r.unwrap()
                == self@[row_pos as int * self.width() + col_pos as int],
            !(row_pos < self.height() && col_pos < self.width()) ==> r is None,
    {
        proof {
            if row_pos < self.height && col_pos < self.width {
                lemma_get_index_reads_grid(*self, row_pos as int, col_pos as int);
            }
        }
        match self.get_index(row_pos, col_pos) {
            Some(index) => Some(&self.data[index]),
            None => None,
        }
    }

    /// Bounds-checked exclusive logical access: a mutable reference to the
    /// element at `(row_pos, col_pos)`, or `None` when either coordinate is
    /// out of range, in which case the array is unchanged.
    pub fn get_mut(&mut self, row_pos: usize, col_pos: usize) -> (r: Option<&mut T>)
        requires
            old(self).wf(),
        ensures
            row_pos < old(self).height() && col_pos < old(self).width() ==> {
                &&& r is Some
                &&& *r.unwrap() == old(self)@[row_pos as int * old(self).width() + col_pos as int]
                &&& final(self)@ == old(self)@.update(
                    row_pos as int * old(self).width() + col_pos as int,
                    *final(r.unwrap()),
                )
                &&& final(self).wf()
                &&& final(self).width() == old(self).width()
                &&& final(self).height() == old(self).height()
                &&& final(self).blocksize() == old(self).blocksize()
            },
            !(row_pos < old(self).height() && col_pos < old(self).width()) ==> {
                &&& r is None
                &&& *final(self) == *old(self)
            },
    {
        proof {
            if row_pos < self.height && col_pos < self.width {
                lemma_get_index_reads_grid(*self, row_pos as int, col_pos as int);
            }
        }
        match self.get_index(row_pos, col_pos) {
            Some(index) => {
                let elem = &mut self.data[index];
                proof {
                    lemma_grid_of_update(
                        old(self).height() as int,
                        old(self).blocksize() as int,
                        old(self).data@,
                        row_pos as int,
                        col_pos as int,
                        *final(elem),
                    );
                }
                Some(elem)
            },
            None => None,
        }
    }

    /// Reads the whole array in physical storage order: the `p`-th returned
    /// triple is the element at physical index `p` together with its logical
    /// coordinates. One tile of `blocksize` contiguous logical columns is
    /// emitted in full before the next begins.
    pub fn iter(&self) -> (v: Vec<(usize, usize, T)>)
        requires
            self.wf(),
        ensures
            v@.len() == self.width() * self.height(),
            forall|p: int|
                0 <= p < v@.len() ==> {
                    &&& (#[trigger] v@[p]).0 == phys_row(self.blocksize(), self.height(), p)
                    &&& v@[p].1 == phys_col(self.blocksize(), self.height(), p)
                    &&& v@[p].0 < self.height()
                    &&& v@[p].1 < self.width()
                    &&& v@[p].2 == self@[v@[p].0 as int * self.width() + v@[p].1 as int]
                },
    {
        let n = self.data.len();
        let ghost h = self.height as int;
        let ghost bs = self.blocksize as int;
        proof {
            lemma_band_fits(bs, h);
            assert(h * h == self.width() * self.height()) by (nonlinear_arith)
                requires
                    h == self.width(),
                    h == self.height(),
            ;
            assert(h * h <= usize::MAX);
        }
        let band = self.blocksize * self.height;
        let mut v: Vec<(usize, usize, T)> = Vec::new();
        let mut p: usize = 0;
        while p < n
            invariant
                0 <= p <= n,
                n == self.data@.len(),
                n as int == h * h,
                self.wf(),
                h == self.height as int,
                bs == self.blocksize as int,
                band == self.blocksize * self.height,
                v@.len() == p,
                forall|q: int|
                    0 <= q < p ==> {
                        &&& (#[trigger] v@[q]).0 == phys_row(bs, h, q)
                        &&& v@[q].1 == phys_col(bs, h, q)
                        &&& v@[q].0 < h
                        &&& v@[q].1 < h
                        &&& v@[q].2 == self@[v@[q].0 as int * h + v@[q].1 as int]
                    },
            decreases n - p,
        {
            proof {
                assert(h >= 1) by (nonlinear_arith)
                    requires
                        h * h > 0,
                        h >= 0,
                ;
                assert(band >= 1) by (nonlinear_arith)
                    requires
                        band == bs * h,
                        bs >= 1,
                        h >= 1,
                ;
                lemma_phys_index_inverse(bs, h, p as int);
                lemma_grid_reads_data(*self, p as int);
            }
            let row = (p / band) * self.blocksize + p % self.blocksize;
            let col = (p / self.blocksize) % self.height;
            v.push((row, col, self.data[p]));
            p = p + 1;
        }
        v
    }
}

/// For `0 <= i < h * h`, the row-major coordinates of cell `i` are in range
/// and rebuild `i`.
proof fn lemma_row_major_coords(h: int, i: int)
    requires
        h >= 0,
        0 <= i < h * h,
    ensures
        0 <= i / h < h,
        0 <= i % h < h,
        (i / h) * h + i % h == i,
{
    assert(h >= 1) by (nonlinear_arith)
        requires
            h >= 0,
            0 <= i < h * h,
    ;
    lemma_fundamental_div_mod(i, h);
    lemma_mod_division_less_than_divisor(i, h);
    assert(0 <= i / h < h) by (nonlinear_arith)
        requires
            i == h * (i / h) + i % h,
            0 <= i % h < h,
            0 <= i < h * h,
            h >= 1,
    ;
    assert((i / h) * h == h * (i / h)) by (nonlinear_arith);
}

/// The grid element at `(row, col)` of a well-formed array is the buffer
/// element at the corresponding physical index.
proof fn lemma_get_index_reads_grid<T: Copy>(a: Array2b<T>, row: int, col: int)
    requires
        a.wf(),
        0 <= row < a.height(),
        0 <= col < a.width(),
    ensures
        0 <= phys_index(a.blocksize(), a.height(), row, col) < a@.len(),
        a@[row * a.width() + col] == a.data@[phys_index(a.blocksize(), a.height(), row, col)],
        0 <= row * a.width() + col < a@.len(),
        a@.len() == a.data@.len(),
        a.data@.len() <= usize::MAX,
{
    let h = a.height() as int;
    let bs = a.blocksize() as int;
    assert(a.data.len() <= usize::MAX);
    assert(h * h == a.width() * a.height()) by (nonlinear_arith)
        requires
            h == a.width(),
            h == a.height(),
    ;
    lemma_phys_index_bijective(bs, h, row, col);
    let l = row * h + col;
    assert(0 <= l < h * h) by (nonlinear_arith)
        requires
            0 <= row < h,
            0 <= col < h,
            l == row * h + col,
    ;
    assert(l == row * h + col);
    lemma_fundamental_div_mod_converse(l, h, row, col);
    assert(l / h == row && l % h == col);
}

/// The buffer element at physical index `p` of a well-formed array is the
/// grid element at the logical coordinates recovered from `p`.
proof fn lemma_grid_reads_data<T: Copy>(a: Array2b<T>, p: int)
    requires
        a.wf(),
        0 <= p < a.data@.len(),
    ensures
        0 <= phys_row(a.blocksize(), a.height(), p) < a.height(),
        0 <= phys_col(a.blocksize(), a.height(), p) < a.width(),
        a.data@[p] == a@[phys_row(a.blocksize(), a.height(), p) * a.width() + phys_col(
            a.blocksize(),
            a.height(),
            p,
        )],
{
    let h = a.height() as int;
    let bs = a.blocksize() as int;
    lemma_phys_index_inverse(bs, h, p);
    let row = phys_row(bs, h, p);
    let col = phys_col(bs, h, p);
    lemma_get_index_reads_grid(a, row, col);
}

/// Updating the buffer at the physical index of `(row, col)` updates the grid
/// at the row-major index of `(row, col)` and nothing else.
proof fn lemma_grid_of_update<T>(h: int, bs: int, data: Seq<T>, row: int, col: int, v: T)
    requires
        bs >= 1,
        h % bs == 0,
        0 <= row < h,
        0 <= col < h,
        data.len() == h * h,
    ensures
        grid_of(h, bs, data.update(phys_index(bs, h, row, col), v)) == grid_of(h, bs, data).update(
            row * h + col,
            v,
        ),
{
    let p = phys_index(bs, h, row, col);
    lemma_phys_index_bijective(bs, h, row, col);
    let l = row * h + col;
    assert(0 <= l < h * h) by (nonlinear_arith)
        requires
            0 <= row < h,
            0 <= col < h,
            l == row * h + col,
    ;
    lemma_fundamental_div_mod_converse(l, h, row, col);
    let g1 = grid_of(h, bs, data.update(p, v));
    let g2 = grid_of(h, bs, data).update(l, v);
    assert forall|i: int| 0 <= i < h * h implies g1[i] == g2[i] by {
        lemma_row_major_coords(h, i);
        lemma_phys_index_bijective(bs, h, i / h, i % h);
        if i == l {
            assert(phys_index(bs, h, i / h, i % h) == p);
        } else {
            if phys_index(bs, h, i / h, i % h) == p {
                assert(i / h == row && i % h == col);
                assert(i == (i / h) * h + i % h);
                assert(false);
            }
        }
    }
    assert(g1 =~= g2);
}

} // verus!
