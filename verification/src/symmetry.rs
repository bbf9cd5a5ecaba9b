use crate::bits::{bit_set, lemma_masks_equal_by_bits, lemma_set_bits_finite, popcount, set_bits};
use crate::piece::Piece;
use vstd::prelude::*;
use vstd::relations::injective_on;
use vstd::set_lib::{lemma_len_subset, lemma_map_size};

verus! {

/// Two well-formed pieces with the same box and the same cells are the same piece.
pub proof fn lemma_equal_by_cells(a: Piece, b: Piece)
    requires
        a.well_formed(),
        b.well_formed(),
        a.width == b.width,
        a.height == b.height,
        forall|x: int, y: int| a.has_cell(x, y) == b.has_cell(x, y),
    ensures
        a == b,
{
    assert forall|i: int| 0 <= i < 64 implies bit_set(a.shape, i) == bit_set(b.shape, i) by {
        assert(a.has_cell(i % 8, i / 8) == b.has_cell(i % 8, i / 8));
        assert((i / 8) * 8 + i % 8 == i);
    }
    lemma_masks_equal_by_bits(a.shape, b.shape);
}

/// Four quarter turns bring a piece back to itself exactly when the
/// piece is confined to its box.
pub proof fn lemma_four_rotations(p: Piece)
    requires
        p.fits_grid(),
    ensures
        p.rotated().rotated().rotated().rotated() == p <==> p.confined(),
{
    let r1 = p.rotated();
    let r2 = r1.rotated();
    let r3 = r2.rotated();
    let r4 = r3.rotated();
    p.lemma_rotated_cells();
    r1.lemma_rotated_cells();
    r2.lemma_rotated_cells();
    r3.lemma_rotated_cells();
    if p.confined() {
        lemma_four_turns_of_cells(p);
    }
}

proof fn lemma_four_turns_of_cells(p: Piece)
    requires
        p.well_formed(),
    ensures
        p.rotated().rotated().rotated().rotated() == p,
{
    let r1 = p.rotated();
    let r2 = r1.rotated();
    let r3 = r2.rotated();
    let r4 = r3.rotated();
    p.lemma_rotated_cells();
    r1.lemma_rotated_cells();
    r2.lemma_rotated_cells();
    r3.lemma_rotated_cells();
    assert forall|x: int, y: int| r4.has_cell(x, y) == p.has_cell(x, y) by {
        assert(r4.has_cell(x, y) == r3.has_cell(y, r3.height - 1 - x));
        assert(r3.has_cell(y, r3.height - 1 - x) == r2.has_cell(
            r3.height - 1 - x,
            r2.height - 1 - y,
        ));
        assert(r2.has_cell(r3.height - 1 - x, r2.height - 1 - y) == r1.has_cell(
            r2.height - 1 - y,
            r1.height - 1 - (r3.height - 1 - x),
        ));
        assert(r1.has_cell(r2.height - 1 - y, r1.height - 1 - (r3.height - 1 - x)) == p.has_cell(
            r1.height - 1 - (r3.height - 1 - x),
            p.height - 1 - (r2.height - 1 - y),
        ));
    }
    lemma_equal_by_cells(r4, p);
}

/// Mirroring twice gives the piece back exactly when the piece is
/// confined to its box.
pub proof fn lemma_mirror_twice(p: Piece)
    requires
        p.fits_grid(),
    ensures
        p.mirrored().mirrored() == p <==> p.confined(),
{
    p.lemma_mirrored_cells();
    p.mirrored().lemma_mirrored_cells();
    if p.confined() {
        lemma_two_flips_of_cells(p);
    }
}

proof fn lemma_two_flips_of_cells(p: Piece)
    requires
        p.well_formed(),
    ensures
        p.mirrored().mirrored() == p,
{
    let m1 = p.mirrored();
    let m2 = m1.mirrored();
    p.lemma_mirrored_cells();
    m1.lemma_mirrored_cells();
    assert forall|x: int, y: int| m2.has_cell(x, y) == p.has_cell(x, y) by {
        assert(m2.has_cell(x, y) == m1.has_cell(m1.width - 1 - x, y));
        assert(m1.has_cell(m1.width - 1 - x, y) == p.has_cell(
            p.width - 1 - (m1.width - 1 - x),
            y,
        ));
    }
    lemma_equal_by_cells(m2, p);
}

/// Two masks whose set bits correspond one to one have equally many set bits.
proof fn lemma_same_count(a: u64, b: u64, to: spec_fn(int) -> int, back: spec_fn(int) -> int)
    requires
        forall|i: int| #[trigger] bit_set(a, i) ==> bit_set(b, to(i)) && back(to(i)) == i,
        forall|t: int| #[trigger] bit_set(b, t) ==> bit_set(a, back(t)) && to(back(t)) == t,
    ensures
        popcount(a) == popcount(b),
{
    let from = set_bits(a);
    let onto = set_bits(b);
    lemma_set_bits_finite(a);
    assert(injective_on(to, from)) by {
        assert forall|i: int, j: int|
            from.contains(i) && from.contains(j) && #[trigger] to(i) == #[trigger] to(j) implies i
            == j by {
            assert(bit_set(a, i) && bit_set(a, j));
        }
    }
    assert forall|t: int| from.map(to).contains(t) == onto.contains(t) by {
        if onto.contains(t) {
            assert(bit_set(b, t));
            assert(from.contains(back(t)) && to(back(t)) == t);
        }
        if from.map(to).contains(t) {
            let i = choose|i: int| from.contains(i) && t == to(i);
            assert(bit_set(a, i));
        }
    }
    assert(from.map(to) =~= onto);
    lemma_map_size(from, onto, to);
}

/// A quarter turn keeps the number of cells of a well-formed piece.
pub proof fn lemma_rotation_keeps_cell_count(p: Piece)
    requires
        p.well_formed(),
    ensures
        popcount(p.rotated().shape) == popcount(p.shape),
{
    let r = p.rotated();
    let h = p.height as int;
    let to = |i: int| (i % 8) * 8 + (h - 1 - i / 8);
    let back = |t: int| (h - 1 - t % 8) * 8 + t / 8;
    p.lemma_rotated_cells();
    assert forall|i: int| #[trigger] bit_set(p.shape, i) implies bit_set(r.shape, to(i)) && back(
        to(i),
    ) == i by {
        let t = to(i);
        assert(t / 8 == i % 8 && t % 8 == h - 1 - i / 8);
        assert(p.has_cell(t / 8, h - 1 - t % 8));
    }
    assert forall|t: int| #[trigger] bit_set(r.shape, t) implies bit_set(p.shape, back(t)) && to(
        back(t),
    ) == t by {
        let i = back(t);
        assert(p.has_cell(t / 8, h - 1 - t % 8));
        assert(i / 8 == h - 1 - t % 8 && i % 8 == t / 8);
    }
    lemma_same_count(p.shape, r.shape, to, back);
}

/// A quarter turn drops the cells outside the box: a piece that has any comes out with fewer cells.
pub proof fn lemma_rotation_drops_outside_cells(p: Piece)
    requires
        p.fits_grid(),
        !p.confined(),
    ensures
        popcount(p.rotated().shape) < popcount(p.shape),
{
    let r = p.rotated();
    let h = p.height as int;
    let back = |t: int| (h - 1 - t % 8) * 8 + t / 8;
    let kept = set_bits(r.shape);
    let all = set_bits(p.shape);
    let outside = choose|i: int| bit_set(p.shape, i) && !(i % 8 < p.width && i / 8 < p.height);
    p.lemma_rotated_cells();
    lemma_set_bits_finite(r.shape);
    lemma_set_bits_finite(p.shape);
    assert forall|t: int| #[trigger] kept.contains(t) implies bit_set(p.shape, back(t)) && back(t)
        % 8 == t / 8 && back(t) / 8 == h - 1 - t % 8 by {
        assert(bit_set(r.shape, t));
        assert(p.has_cell(t / 8, h - 1 - t % 8));
    }
    assert(injective_on(back, kept)) by {
        assert forall|t: int, u: int|
            kept.contains(t) && kept.contains(u) && #[trigger] back(t) == #[trigger] back(u) implies t
            == u by {
            assert(t / 8 == u / 8 && t % 8 == u % 8);
        }
    }
    lemma_map_size(kept, kept.map(back), back);
    assert(kept.map(back).subset_of(all.remove(outside))) by {
        assert forall|i: int| kept.map(back).contains(i) implies all.remove(outside).contains(i) by {
            let t = choose|t: int| kept.contains(t) && i == back(t);
            assert(bit_set(p.shape, back(t)));
        }
    }
    assert(all.contains(outside));
    lemma_len_subset(kept.map(back), all.remove(outside));
}

/// Mirroring keeps the number of cells of a well-formed piece.
pub proof fn lemma_mirror_keeps_cell_count(p: Piece)
    requires
        p.well_formed(),
    ensures
        popcount(p.mirrored().shape) == popcount(p.shape),
{
    let m = p.mirrored();
    let w = p.width as int;
    let to = |i: int| (i / 8) * 8 + (w - 1 - i % 8);
    p.lemma_mirrored_cells();
    assert forall|i: int| #[trigger] bit_set(p.shape, i) implies bit_set(m.shape, to(i)) && to(
        to(i),
    ) == i by {
        let t = to(i);
        assert(t / 8 == i / 8 && t % 8 == w - 1 - i % 8);
        assert(p.has_cell(w - 1 - t % 8, t / 8));
    }
    assert forall|t: int| #[trigger] bit_set(m.shape, t) implies bit_set(p.shape, to(t)) && to(
        to(t),
    ) == t by {
        let i = to(t);
        assert(p.has_cell(w - 1 - t % 8, t / 8));
        assert(i / 8 == t / 8 && i % 8 == w - 1 - t % 8);
    }
    lemma_same_count(p.shape, m.shape, to, to);
}

/// A quarter turn of a piece in its bounding box is again a piece in its bounding box.
pub proof fn lemma_rotation_keeps_bounding_box(p: Piece)
    requires
        p.is_bounding_box(),
    ensures
        p.rotated().is_bounding_box(),
{
    let r = p.rotated();
    let h = p.height as int;
    let w = p.width as int;
    let (right, bottom) = (w - 1, h - 1);
    p.lemma_rotated_cells();
    if h > 0 {
        let x0 = choose|x: int| p.has_cell(x, bottom);
        assert(r.has_cell(0, x0));
        let x1 = choose|x: int| p.has_cell(x, 0);
        assert(r.has_cell(h - 1, x1));
        assert(w > 0);
    }
    if w > 0 {
        let y0 = choose|y: int| p.has_cell(0, y);
        assert(r.has_cell(h - 1 - y0, 0));
        let y1 = choose|y: int| p.has_cell(right, y);
        assert(r.has_cell(h - 1 - y1, w - 1));
    }
}

/// The mirror image of a piece in its bounding box is again a piece in its bounding box.
pub proof fn lemma_mirror_keeps_bounding_box(p: Piece)
    requires
        p.is_bounding_box(),
    ensures
        p.mirrored().is_bounding_box(),
{
    let m = p.mirrored();
    let h = p.height as int;
    let w = p.width as int;
    let (right, bottom) = (w - 1, h - 1);
    p.lemma_mirrored_cells();
    if w > 0 {
        let y0 = choose|y: int| p.has_cell(right, y);
        assert(m.has_cell(0, y0));
        let y1 = choose|y: int| p.has_cell(0, y);
        assert(m.has_cell(w - 1, y1));
    }
    if h > 0 {
        let x0 = choose|x: int| p.has_cell(x, 0);
        assert(m.has_cell(w - 1 - x0, 0));
        let x1 = choose|x: int| p.has_cell(x, bottom);
        assert(m.has_cell(w - 1 - x1, h - 1));
    }
}

/// Two pieces in their bounding boxes that have the same shape are the same piece.
pub proof fn lemma_shape_decides_box(a: Piece, b: Piece)
    requires
        a.is_bounding_box(),
        b.is_bounding_box(),
        a.shape == b.shape,
    ensures
        a == b,
{
    lemma_box_not_wider(a, b);
    lemma_box_not_wider(b, a);
}

proof fn lemma_box_not_wider(a: Piece, b: Piece)
    requires
        a.is_bounding_box(),
        b.well_formed(),
        a.shape == b.shape,
    ensures
        a.width <= b.width,
        a.height <= b.height,
{
    let (right, bottom) = (a.width - 1, a.height - 1);
    if a.width > 0 {
        let y = choose|y: int| a.has_cell(right, y);
        let i = y * 8 + (a.width - 1);
        assert(bit_set(b.shape, i));
        assert(i % 8 == a.width - 1);
    }
    if a.height > 0 {
        let x = choose|x: int| a.has_cell(x, bottom);
        let i = (a.height - 1) * 8 + x;
        assert(bit_set(b.shape, i));
        assert(i / 8 == a.height - 1);
    }
}

} // verus!
