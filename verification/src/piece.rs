use crate::bits::{
    bit_set, lemma_mask_of_bits, lemma_masks_equal_by_bits, lemma_set_one_bit,
    lemma_zero_has_no_bit, mask_of,
};
use std::cmp::Ordering;
use vstd::prelude::*;

verus! {

/// A polyomino on the 8x8 grid: bit `y * 8 + x` of `shape` is the cell in
/// column `x` and row `y` of the piece's own `width` x `height` box.
#[derive(Clone, Copy, Debug, PartialEq, Eq, Structural, PartialOrd, Hash)]
pub struct Piece {
    pub shape: u64,
    pub width: u64,
    pub height: u64,
}

impl Piece {
    /// The box is no larger than the grid.
    pub open spec fn fits_grid(self) -> bool {
        self.width <= 8 && self.height <= 8
    }

    /// The piece occupies the cell in column `x` and row `y` of its box.
    pub open spec fn has_cell(self, x: int, y: int) -> bool {
        0 <= x < self.width && 0 <= y < self.height && bit_set(self.shape, y * 8 + x)
    }

    /// No bit of `shape` lies outside the box.
    pub open spec fn confined(self) -> bool {
        forall|i: int| #[trigger] bit_set(self.shape, i) ==> i % 8 < self.width && i / 8 < self.height
    }

    /// The box fits the grid and holds the whole shape.
    pub open spec fn well_formed(self) -> bool {
        self.fits_grid() && self.confined()
    }

    /// The piece has a cell in column `x`.
    pub open spec fn touches_column(self, x: int) -> bool {
        exists|y: int| self.has_cell(x, y)
    }

    /// The piece has a cell in row `y`.
    pub open spec fn touches_row(self, y: int) -> bool {
        exists|x: int| self.has_cell(x, y)
    }

    /// The box is the bounding box of the shape: the piece is well formed
    /// and reaches all four sides of its box. The empty shape has the empty box.
    pub open spec fn is_bounding_box(self) -> bool {
        &&& self.well_formed()
        &&& self.width > 0 ==> self.touches_column(0) && self.touches_column(self.width - 1)
        &&& self.height > 0 ==> self.touches_row(0) && self.touches_row(self.height - 1)
    }

    /// The piece turned a quarter clockwise: the cell in column `x` and row
    /// `y` of the result is the cell in column `y` and row `height - 1 - x`
    /// of `self`, and the box is transposed.
    pub open spec fn rotated(self) -> Piece {
        Piece {
            shape: mask_of(|i: int| self.has_cell(i / 8, self.height - 1 - i % 8)),
            width: self.height,
            height: self.width,
        }
    }

    /// The piece flipped left to right: the cell in column `x` and row `y`
    /// of the result is the cell in column `width - 1 - x` and row `y` of
    /// `self`, and the box is unchanged.
    pub open spec fn mirrored(self) -> Piece {
        Piece {
            shape: mask_of(|i: int| self.has_cell(self.width - 1 - i % 8, i / 8)),
            width: self.width,
            height: self.height,
        }
    }

    /// A piece with the given shape and box. A box larger than the grid is
    /// a malformed piece and is not accepted.
    pub fn new(shape: u64, width: u64, height: u64) -> (p: Piece)
        requires
            width <= 8,
            height <= 8,
        ensures
            p.shape == shape,
            p.width == width,
            p.height == height,
            p.fits_grid(),
    {
        Piece { shape, width, height }
    }

    /// `self` stands before `other` among the variants: its shape is the
    /// smaller one or, where the shapes are equal, its box is the narrower
    /// one or, where the widths are equal too, the lower one.
    pub open spec fn goes_before(self, other: Piece) -> bool {
        self.shape < other.shape || (self.shape == other.shape && (self.width < other.width || (
        self.width == other.width && self.height < other.height)))
    }

    /// Orders two pieces by shape alone.
    pub fn compare_shape(&self, other: &Piece) -> (o: Ordering)
        ensures
            matches!(o, Ordering::Less) <==> self.shape < other.shape,
            matches!(o, Ordering::Equal) <==> self.shape == other.shape,
            matches!(o, Ordering::Greater) <==> self.shape > other.shape,
    {
        if self.shape < other.shape {
            Ordering::Less
        } else if self.shape == other.shape {
            Ordering::Equal
        } else {
            Ordering::Greater
        }
    }

    /// Tells whether `self` stands before `other` among the variants.
    pub fn stands_before(&self, other: &Piece) -> (before: bool)
        ensures
            before == self.goes_before(*other),
    {
        match self.compare_shape(other) {
            Ordering::Less => true,
            Ordering::Equal => self.width < other.width || (self.width == other.width
                && self.height < other.height),
            Ordering::Greater => false,
        }
    }

    /// Rotates the piece by a quarter turn clockwise, anchored at the origin of its box.
    pub fn rotate_right(&self) -> (r: Piece)
        requires
            self.fits_grid(),
        ensures
            r == self.rotated(),
            r.width == self.height,
            r.height == self.width,
            r.well_formed(),
            forall|x: int, y: int| r.has_cell(x, y) <==> self.has_cell(y, self.height - 1 - x),
    {
        let mut rotated_shape: u64 = 0;
        let h: u64 = self.height;
        let w: u64 = self.width;
        proof {
            assert forall|i: int| !bit_set(0u64, i) by {
                lemma_zero_has_no_bit(i);
            }
        }
        for y in 0..h
            invariant
                h == self.height,
                w == self.width,
                self.fits_grid(),
                forall|i: int| #[trigger]
                    bit_set(rotated_shape, i) <==> (0 <= i < 64 && self.has_cell(i / 8, h - 1 - i % 8)
                        && h - 1 - i % 8 < y),
        {
            for x in 0..w
                invariant
                    h == self.height,
                    w == self.width,
                    self.fits_grid(),
                    y < h,
                    forall|i: int| #[trigger]
                        bit_set(rotated_shape, i) <==> (0 <= i < 64 && self.has_cell(
                            i / 8,
                            h - 1 - i % 8,
                        ) && (h - 1 - i % 8 < y || (h - 1 - i % 8 == y && i / 8 < x))),
            {
                if self.shape & (1u64 << (y * 8 + x)) != 0 {
                    let ghost before = rotated_shape;
                    let target: u64 = x * 8 + (h - y - 1);
                    rotated_shape |= 1u64 << target;
                    proof {
                        assert forall|i: int| #[trigger]
                            bit_set(rotated_shape, i) <==> (0 <= i < 64 && self.has_cell(
                                i / 8,
                                h - 1 - i % 8,
                            ) && (h - 1 - i % 8 < y || (h - 1 - i % 8 == y && i / 8 < x + 1))) by {
                            lemma_set_one_bit(before, target as int, i);
                        }
                    }
                }
            }
        }
        let r = Piece { shape: rotated_shape, width: h, height: w };
        proof {
            self.lemma_rotated_cells();
            assert forall|i: int| 0 <= i < 64 implies bit_set(r.shape, i) == bit_set(
                self.rotated().shape,
                i,
            ) by {}
            lemma_masks_equal_by_bits(r.shape, self.rotated().shape);
        }
        r
    }

    /// Mirrors the piece left to right inside its box.
    pub fn mirror(&self) -> (m: Piece)
        requires
            self.fits_grid(),
        ensures
            m == self.mirrored(),
            m.width == self.width,
            m.height == self.height,
            m.well_formed(),
            forall|x: int, y: int| m.has_cell(x, y) <==> self.has_cell(self.width - 1 - x, y),
    {
        let mut mirrored_shape: u64 = 0;
        let h: u64 = self.height;
        let w: u64 = self.width;
        proof {
            assert forall|i: int| !bit_set(0u64, i) by {
                lemma_zero_has_no_bit(i);
            }
        }
        for y in 0..h
            invariant
                h == self.height,
                w == self.width,
                self.fits_grid(),
                forall|i: int| #[trigger]
                    bit_set(mirrored_shape, i) <==> (0 <= i < 64 && self.has_cell(
                        w - 1 - i % 8,
                        i / 8,
                    ) && i / 8 < y),
        {
            for x in 0..w
                invariant
                    h == self.height,
                    w == self.width,
                    self.fits_grid(),
                    y < h,
                    forall|i: int| #[trigger]
                        bit_set(mirrored_shape, i) <==> (0 <= i < 64 && self.has_cell(
                            w - 1 - i % 8,
                            i / 8,
                        ) && (i / 8 < y || (i / 8 == y && w - 1 - i % 8 < x))),
            {
                if self.shape & (1u64 << (y * 8 + x)) != 0 {
                    let ghost before = mirrored_shape;
                    let target: u64 = y * 8 + (w - x - 1);
                    mirrored_shape |= 1u64 << target;
                    proof {
                        assert forall|i: int| #[trigger]
                            bit_set(mirrored_shape, i) <==> (0 <= i < 64 && self.has_cell(
                                w - 1 - i % 8,
                                i / 8,
                            ) && (i / 8 < y || (i / 8 == y && w - 1 - i % 8 < x + 1))) by {
                            lemma_set_one_bit(before, target as int, i);
                        }
                    }
                }
            }
        }
        let m = Piece { shape: mirrored_shape, width: w, height: h };
        proof {
            self.lemma_mirrored_cells();
            assert forall|i: int| 0 <= i < 64 implies bit_set(m.shape, i) == bit_set(
                self.mirrored().shape,
                i,
            ) by {}
            lemma_masks_equal_by_bits(m.shape, self.mirrored().shape);
        }
        m
    }

    /// The bits and cells of a rotated piece, read off the piece before the turn.
    pub proof fn lemma_rotated_cells(self)
        requires
            self.fits_grid(),
        ensures
            forall|i: int| #[trigger]
                bit_set(self.rotated().shape, i) <==> (0 <= i < 64 && self.has_cell(
                    i / 8,
                    self.height - 1 - i % 8,
                )),
            forall|x: int, y: int|
                self.rotated().has_cell(x, y) <==> self.has_cell(y, self.height - 1 - x),
            self.rotated().well_formed(),
    {
        lemma_mask_of_bits(|i: int| self.has_cell(i / 8, self.height - 1 - i % 8));
        let r = self.rotated();
        assert forall|x: int, y: int| r.has_cell(x, y) <==> self.has_cell(
            y,
            self.height - 1 - x,
        ) by {
            if 0 <= x < r.width && 0 <= y < r.height {
                let i = y * 8 + x;
                assert(i / 8 == y && i % 8 == x);
            }
        }
    }

    /// The bits and cells of a mirrored piece, read off the piece before the flip.
    pub proof fn lemma_mirrored_cells(self)
        requires
            self.fits_grid(),
        ensures
            forall|i: int| #[trigger]
                bit_set(self.mirrored().shape, i) <==> (0 <= i < 64 && self.has_cell(
                    self.width - 1 - i % 8,
                    i / 8,
                )),
            forall|x: int, y: int|
                self.mirrored().has_cell(x, y) <==> self.has_cell(self.width - 1 - x, y),
            self.mirrored().well_formed(),
    {
        lemma_mask_of_bits(|i: int| self.has_cell(self.width - 1 - i % 8, i / 8));
        let m = self.mirrored();
        assert forall|x: int, y: int| m.has_cell(x, y) <==> self.has_cell(
            self.width - 1 - x,
            y,
        ) by {
            if 0 <= x < m.width && 0 <= y < m.height {
                let i = y * 8 + x;
                assert(i / 8 == y && i % 8 == x);
            }
        }
    }
}

} // verus!
