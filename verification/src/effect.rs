//! The seven geometric effects and their coordinate maps.
//!
//! An effect is applied by remapping coordinates: a source element at logical
//! `(col, row)` is sent to `(col', row')` in a destination grid whose
//! dimensions are the source's, swapped for the quarter rotations and the
//! transposition. The maps are parameterized by the *destination* dimensions.

use vstd::prelude::*;

verus! {

/// One of the seven supported geometric transforms.
#[derive(Clone, Copy, Debug, PartialEq, Eq, Structural)]
pub enum Effect {
    Rotate0,
    Rotate90,
    Rotate180,
    Rotate270,
    FlipHorizontal,
    FlipVertical,
    Transpose,
}

impl Effect {
    /// Whether the effect exchanges the two dimensions of the grid.
    pub open spec fn swaps_dims(self) -> bool {
        self == Effect::Rotate90 || self == Effect::Rotate270 || self == Effect::Transpose
    }

    /// Width of the destination grid for a source grid of width `w`, height `h`.
    pub open spec fn dest_width(self, w: int, h: int) -> int {
        if self.swaps_dims() {
            h
        } else {
            w
        }
    }

    /// Height of the destination grid for a source grid of width `w`, height `h`.
    pub open spec fn dest_height(self, w: int, h: int) -> int {
        if self.swaps_dims() {
            w
        } else {
            h
        }
    }

    /// Width of the source grid whose destination grid has width `w`, height `h`.
    pub open spec fn src_width(self, w: int, h: int) -> int {
        if self.swaps_dims() {
            h
        } else {
            w
        }
    }

    /// Height of the source grid whose destination grid has width `w`, height `h`.
    pub open spec fn src_height(self, w: int, h: int) -> int {
        if self.swaps_dims() {
            w
        } else {
            h
        }
    }

    /// Destination column for the source element at `(col, row)`, where
    /// `w` and `h` are the destination grid's dimensions.
    pub open spec fn map_col(self, w: int, h: int, col: int, row: int) -> int {
        match self {
            Effect::Rotate0 => col,
            Effect::Rotate90 => w - row - 1,
            Effect::Rotate180 => w - col - 1,
            Effect::Rotate270 => row,
            Effect::FlipHorizontal => w - col - 1,
            Effect::FlipVertical => col,
            Effect::Transpose => row,
        }
    }

    /// Destination row for the source element at `(col, row)`, where
    /// `w` and `h` are the destination grid's dimensions.
    pub open spec fn map_row(self, w: int, h: int, col: int, row: int) -> int {
        match self {
            Effect::Rotate0 => row,
            Effect::Rotate90 => col,
            Effect::Rotate180 => h - row - 1,
            Effect::Rotate270 => h - col - 1,
            Effect::FlipHorizontal => row,
            Effect::FlipVertical => h - row - 1,
            Effect::Transpose => col,
        }
    }

    /// Source column of the element sent to destination `(col, row)`, where
    /// `w` and `h` are the destination grid's dimensions.
    pub open spec fn unmap_col(self, w: int, h: int, col: int, row: int) -> int {
        match self {
            Effect::Rotate0 => col,
            Effect::Rotate90 => row,
            Effect::Rotate180 => w - col - 1,
            Effect::Rotate270 => h - row - 1,
            Effect::FlipHorizontal => w - col - 1,
            Effect::FlipVertical => col,
            Effect::Transpose => row,
        }
    }

    /// Source row of the element sent to destination `(col, row)`, where
    /// `w` and `h` are the destination grid's dimensions.
    pub open spec fn unmap_row(self, w: int, h: int, col: int, row: int) -> int {
        match self {
            Effect::Rotate0 => row,
            Effect::Rotate90 => w - col - 1,
            Effect::Rotate180 => h - row - 1,
            Effect::Rotate270 => col,
            Effect::FlipHorizontal => row,
            Effect::FlipVertical => h - row - 1,
            Effect::Transpose => col,
        }
    }

    /// Whether the effect exchanges the two dimensions of the grid.
    pub fn swaps(self) -> (b: bool)
        ensures
            b == self.swaps_dims(),
    {
        match self {
            Effect::Rotate90 => true,
            Effect::Rotate270 => true,
            Effect::Transpose => true,
            _ => false,
        }
    }

    /// Applies the coordinate map: returns the destination `(col', row')` of
    /// the source element at `(col, row)`, where `w` and `h` are the
    /// destination grid's dimensions.
    pub fn apply(self, w: usize, h: usize, col: usize, row: usize) -> (cr: (usize, usize))
        requires
            col < self.src_width(w as int, h as int),
            row < self.src_height(w as int, h as int),
        ensures
            cr.0 == self.map_col(w as int, h as int, col as int, row as int),
            cr.1 == self.map_row(w as int, h as int, col as int, row as int),
            cr.0 < w,
            cr.1 < h,
    {
        match self {
            Effect::Rotate0 => (col, row),
            Effect::Rotate90 => (w - row - 1, col),
            Effect::Rotate180 => (w - col - 1, h - row - 1),
            Effect::Rotate270 => (row, h - col - 1),
            Effect::FlipHorizontal => (w - col - 1, row),
            Effect::FlipVertical => (col, h - row - 1),
            Effect::Transpose => (row, col),
        }
    }
}

/// Law: over the destination grid of dimensions `w` by `h`, the coordinate map
/// of each effect is a bijection from the source grid onto the destination
/// grid: it sends every source cell into the destination grid, the two maps
/// invert each other, and so every destination cell is reached by exactly one
/// source cell.
pub proof fn lemma_effect_bijective(e: Effect, w: int, h: int)
    ensures
        forall|col: int, row: int|
            0 <= col < e.src_width(w, h) && 0 <= row < e.src_height(w, h) ==> {
                &&& 0 <= #[trigger] e.map_col(w, h, col, row) < w
                &&& 0 <= #[trigger] e.map_row(w, h, col, row) < h
                &&& e.unmap_col(w, h, e.map_col(w, h, col, row), e.map_row(w, h, col, row)) == col
                &&& e.unmap_row(w, h, e.map_col(w, h, col, row), e.map_row(w, h, col, row)) == row
            },
        forall|col: int, row: int|
            0 <= col < w && 0 <= row < h ==> {
                &&& 0 <= #[trigger] e.unmap_col(w, h, col, row) < e.src_width(w, h)
                &&& 0 <= #[trigger] e.unmap_row(w, h, col, row) < e.src_height(w, h)
                &&& e.map_col(w, h, e.unmap_col(w, h, col, row), e.unmap_row(w, h, col, row)) == col
                &&& e.map_row(w, h, e.unmap_col(w, h, col, row), e.unmap_row(w, h, col, row)) == row
            },
{
}

} // verus!
