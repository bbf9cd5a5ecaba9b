use crate::bits::popcount;
use crate::piece::Piece;
use crate::symmetry::{
    lemma_four_rotations, lemma_mirror_keeps_bounding_box, lemma_mirror_keeps_cell_count,
    lemma_rotation_drops_outside_cells, lemma_rotation_keeps_bounding_box,
    lemma_rotation_keeps_cell_count, lemma_shape_decides_box,
};
use vstd::prelude::*;

verus! {

/// The entries stand in ascending order of shape.
pub open spec fn ascending_by_shape(s: Seq<Piece>) -> bool {
    forall|i: int, j: int| 0 <= i < j < s.len() ==> s[i].shape <= s[j].shape
}

/// The entries stand in strictly ascending order of shape, so no shape occurs twice.
pub open spec fn strictly_ascending_by_shape(s: Seq<Piece>) -> bool {
    forall|i: int, j: int| 0 <= i < j < s.len() ==> s[i].shape < s[j].shape
}

/// No entry stands behind one that it goes before.
pub open spec fn in_order(s: Seq<Piece>) -> bool {
    forall|i: int, j: int| #![trigger s[i], s[j]] 0 <= i < j < s.len() ==> !s[j].goes_before(s[i])
}

/// Every entry goes before all that stand behind it: ascending by shape,
/// and among equal shapes by width, then height.
pub open spec fn strictly_in_order(s: Seq<Piece>) -> bool {
    forall|i: int, j: int| #![trigger s[i], s[j]] 0 <= i < j < s.len() ==> s[i].goes_before(s[j])
}

/// No entry equals the one before it.
pub open spec fn no_adjacent_repeats(s: Seq<Piece>) -> bool {
    forall|i: int| 0 < i < s.len() ==> #[trigger] s[i] != s[i - 1]
}

/// No two entries are the same piece.
pub open spec fn pairwise_distinct(s: Seq<Piece>) -> bool {
    forall|i: int, j: int| 0 <= i < j < s.len() ==> s[i] != s[j]
}

/// Where `p` goes into `s`: right behind the last entry that `p` does not go before.
pub open spec fn insertion_point(s: Seq<Piece>, p: Piece) -> int
    decreases s.len(),
{
    if s.len() == 0 || !p.goes_before(s.last()) {
        s.len() as int
    } else {
        insertion_point(s.drop_last(), p)
    }
}

/// `s` with `p` put in at its insertion point.
pub open spec fn insert_piece(s: Seq<Piece>, p: Piece) -> Seq<Piece> {
    s.insert(insertion_point(s, p), p)
}

/// `s` sorted by shape, pieces of one shape by width, then height.
pub open spec fn sorted_pieces(s: Seq<Piece>) -> Seq<Piece>
    decreases s.len(),
{
    if s.len() == 0 {
        s
    } else {
        insert_piece(sorted_pieces(s.drop_last()), s.last())
    }
}

/// `s` without the entries that equal their predecessor.
pub open spec fn without_repeats(s: Seq<Piece>) -> Seq<Piece>
    decreases s.len(),
{
    if s.len() <= 1 {
        s
    } else if s.last() == s[s.len() - 2] {
        without_repeats(s.drop_last())
    } else {
        without_repeats(s.drop_last()).push(s.last())
    }
}

/// The insertion point is the one position that parts the entries around `p`.
pub proof fn lemma_insertion_point(s: Seq<Piece>, p: Piece, pos: int)
    requires
        0 <= pos <= s.len(),
        forall|k: int| pos <= k < s.len() ==> p.goes_before(s[k]),
        pos > 0 ==> !p.goes_before(s[pos - 1]),
    ensures
        insertion_point(s, p) == pos,
    decreases s.len(),
{
    if s.len() > 0 && p.goes_before(s.last()) {
        lemma_insertion_point(s.drop_last(), p, pos);
    }
}

/// The insertion point lies in the sequence and parts the entries around `p`.
pub proof fn lemma_insertion_point_parts(s: Seq<Piece>, p: Piece)
    ensures
        0 <= insertion_point(s, p) <= s.len(),
        forall|k: int| insertion_point(s, p) <= k < s.len() ==> p.goes_before(s[k]),
        insertion_point(s, p) > 0 ==> !p.goes_before(s[insertion_point(s, p) - 1]),
    decreases s.len(),
{
    if s.len() > 0 && p.goes_before(s.last()) {
        let front = s.drop_last();
        lemma_insertion_point_parts(front, p);
        assert forall|k: int| insertion_point(s, p) <= k < s.len() implies p.goes_before(s[k]) by {
            if k < front.len() {
                assert(front[k] == s[k]);
            }
        }
        if insertion_point(s, p) > 0 {
            assert(front[insertion_point(s, p) - 1] == s[insertion_point(s, p) - 1]);
        }
    }
}

/// Inserting keeps a sequence in order, adds one entry, and adds nothing but `p`.
pub proof fn lemma_insert_piece(s: Seq<Piece>, p: Piece)
    ensures
        insert_piece(s, p).len() == s.len() + 1,
        forall|q: Piece| insert_piece(s, p).contains(q) <==> (s.contains(q) || q == p),
        in_order(s) ==> in_order(insert_piece(s, p)),
{
    lemma_insertion_point_parts(s, p);
    let pos = insertion_point(s, p);
    let t = insert_piece(s, p);
    assert forall|q: Piece| t.contains(q) <==> (s.contains(q) || q == p) by {
        if t.contains(q) {
            let k = choose|k: int| 0 <= k < t.len() && t[k] == q;
            if k < pos {
                assert(s[k] == q);
            } else if k > pos {
                assert(s[k - 1] == q);
            }
        }
        if s.contains(q) {
            let k = choose|k: int| 0 <= k < s.len() && s[k] == q;
            if k < pos {
                assert(t[k] == q);
            } else {
                assert(t[k + 1] == q);
            }
        }
        if q == p {
            assert(t[pos] == q);
        }
    }
    if in_order(s) {
        assert forall|i: int, j: int| 0 <= i < j < t.len() implies !t[j].goes_before(t[i]) by {
            let a = if i < pos { i } else { i - 1 };
            let b = if j < pos { j } else { j - 1 };
            if i != pos && j != pos {
                assert(!s[b].goes_before(s[a]));
            } else if i == pos {
                assert(t[j] == s[b]);
                assert(p.goes_before(s[b]));
            } else {
                assert(t[i] == s[a]);
                assert(!p.goes_before(s[pos - 1]));
                if a < pos - 1 {
                    assert(!s[pos - 1].goes_before(s[a]));
                }
            }
        }
    }
}

/// Sorting gives a sequence in order, of the same length, with the same entries.
pub proof fn lemma_sorted_pieces(s: Seq<Piece>)
    ensures
        sorted_pieces(s).len() == s.len(),
        in_order(sorted_pieces(s)),
        forall|q: Piece| sorted_pieces(s).contains(q) <==> s.contains(q),
    decreases s.len(),
{
    if s.len() > 0 {
        let front = sorted_pieces(s.drop_last());
        lemma_sorted_pieces(s.drop_last());
        lemma_insert_piece(front, s.last());
        assert forall|q: Piece| sorted_pieces(s).contains(q) <==> s.contains(q) by {
            if s.contains(q) {
                let k = choose|k: int| 0 <= k < s.len() && s[k] == q;
                if k < s.len() - 1 {
                    assert(s.drop_last()[k] == q);
                }
            }
            if s.drop_last().contains(q) {
                let k = choose|k: int| 0 <= k < s.drop_last().len() && s.drop_last()[k] == q;
                assert(s[k] == q);
            }
            if q == s.last() {
                assert(s[s.len() - 1] == q);
            }
        }
    }
}

/// Dropping repeats keeps the last entry, the order and the set of
/// entries, and leaves no entry equal to its predecessor.
pub proof fn lemma_without_repeats(s: Seq<Piece>)
    ensures
        without_repeats(s).len() <= s.len(),
        s.len() > 0 ==> without_repeats(s).len() >= 1 && without_repeats(s).last() == s.last(),
        forall|q: Piece| without_repeats(s).contains(q) <==> s.contains(q),
        no_adjacent_repeats(without_repeats(s)),
        in_order(s) ==> in_order(without_repeats(s)),
    decreases s.len(),
{
    if s.len() > 1 {
        let front = s.drop_last();
        let kept = without_repeats(front);
        let r = without_repeats(s);
        lemma_without_repeats(front);
        assert(front.last() == s[s.len() - 2]);
        assert forall|q: Piece| r.contains(q) <==> s.contains(q) by {
            if s.contains(q) {
                let k = choose|k: int| 0 <= k < s.len() && s[k] == q;
                if k < s.len() - 1 || s.last() == s[s.len() - 2] {
                    let m = if k < s.len() - 1 { k } else { s.len() - 2 };
                    assert(front[m] == q);
                    assert(front.contains(q));
                    assert(kept.contains(q));
                    let j = choose|j: int| 0 <= j < kept.len() && kept[j] == q;
                    assert(r[j] == q);
                } else {
                    assert(r[r.len() - 1] == q);
                }
            }
            if r.contains(q) {
                let k = choose|k: int| 0 <= k < r.len() && r[k] == q;
                if k < kept.len() {
                    assert(kept[k] == q);
                    assert(kept.contains(q));
                    assert(front.contains(q));
                    let m = choose|m: int| 0 <= m < front.len() && front[m] == q;
                    assert(s[m] == q);
                } else {
                    assert(s[s.len() - 1] == q);
                }
            }
        }
        if in_order(s) {
            assert(in_order(front)) by {
                assert forall|i: int, j: int| 0 <= i < j < front.len() implies !front[j].goes_before(
                    front[i],
                ) by {
                    assert(!s[j].goes_before(s[i]));
                }
            }
            assert forall|i: int, j: int| 0 <= i < j < r.len() implies !r[j].goes_before(r[i]) by {
                if j < kept.len() {
                    assert(!kept[j].goes_before(kept[i]));
                } else {
                    assert(kept.contains(kept[i]));
                    assert(front.contains(kept[i]));
                    let m = choose|m: int| 0 <= m < front.len() && front[m] == kept[i];
                    assert(!s[s.len() - 1].goes_before(s[m]));
                }
            }
        }
    }
}

/// A sequence in order without adjacent repeats is strictly in order:
/// it is ascending by shape and holds no piece twice.
pub proof fn lemma_strictly_in_order(s: Seq<Piece>)
    requires
        in_order(s),
        no_adjacent_repeats(s),
    ensures
        strictly_in_order(s),
        ascending_by_shape(s),
        pairwise_distinct(s),
{
    assert forall|i: int, j: int| #![trigger s[i], s[j]] 0 <= i < j < s.len() implies s[i].goes_before(
        s[j],
    ) && s[i].shape <= s[j].shape && s[i] != s[j] by {
        assert(s[j] != s[j - 1]);
        assert(!s[j].goes_before(s[j - 1]));
        assert(s[j - 1].goes_before(s[j]));
        if i < j - 1 {
            assert(!s[j - 1].goes_before(s[i]));
        }
    }
}

/// Where the shape decides the piece, a sequence strictly in order is
/// strictly ascending by shape.
pub proof fn lemma_strictly_ascending(s: Seq<Piece>)
    requires
        strictly_in_order(s),
        forall|i: int, j: int|
            0 <= i < s.len() && 0 <= j < s.len() && s[i].shape == s[j].shape ==> s[i] == s[j],
    ensures
        strictly_ascending_by_shape(s),
{
    assert forall|i: int, j: int| 0 <= i < j < s.len() implies s[i].shape < s[j].shape by {
        assert(s[i].goes_before(s[j]));
    }
}

/// Sorts the pieces by shape, pieces of one shape by width, then height.
pub fn sort_pieces(pieces: &mut Vec<Piece>)
    ensures
        final(pieces)@ == sorted_pieces(old(pieces)@),
{
    let mut sorted: Vec<Piece> = Vec::new();
    let n: usize = pieces.len();
    for i in 0..n
        invariant
            n == pieces.len(),
            pieces@ == old(pieces)@,
            sorted@ == sorted_pieces(pieces@.take(i as int)),
    {
        let p = pieces[i];
        let mut pos: usize = sorted.len();
        while pos > 0 && p.stands_before(&sorted[pos - 1])
            invariant
                pos <= sorted.len(),
                forall|k: int| pos <= k < sorted.len() ==> p.goes_before(sorted[k]),
            decreases pos,
        {
            pos -= 1;
        }
        proof {
            lemma_insertion_point(sorted@, p, pos as int);
            assert(pieces@.take(i + 1).drop_last() == pieces@.take(i as int));
        }
        sorted.insert(pos, p);
    }
    proof {
        assert(pieces@.take(n as int) == pieces@);
    }
    *pieces = sorted;
}

/// Removes every piece that equals the piece before it.
pub fn remove_repeats(pieces: &mut Vec<Piece>)
    ensures
        final(pieces)@ == without_repeats(old(pieces)@),
{
    let mut kept: Vec<Piece> = Vec::new();
    let n: usize = pieces.len();
    for i in 0..n
        invariant
            n == pieces.len(),
            pieces@ == old(pieces)@,
            kept@ == without_repeats(pieces@.take(i as int)),
    {
        proof {
            assert(pieces@.take(i + 1).drop_last() == pieces@.take(i as int));
        }
        if i == 0 || pieces[i] != pieces[i - 1] {
            kept.push(pieces[i]);
        }
    }
    proof {
        assert(pieces@.take(n as int) == pieces@);
    }
    *pieces = kept;
}

impl Piece {
    /// The eight orientations in the order they are made: four quarter
    /// turns, then the mirror image of the next turn and its three further turns.
    pub open spec fn orientations(self) -> Seq<Piece> {
        let r1 = self.rotated();
        let r2 = r1.rotated();
        let r3 = r2.rotated();
        let r4 = r3.rotated();
        let m1 = r4.rotated().mirrored();
        let m2 = m1.rotated();
        let m3 = m2.rotated();
        let m4 = m3.rotated();
        seq![r1, r2, r3, r4, m1, m2, m3, m4]
    }

    /// The orientations, each once, sorted by shape; an upright and a
    /// lying piece of one shape stand by width, then height.
    pub open spec fn variants(self) -> Seq<Piece> {
        without_repeats(sorted_pieces(self.orientations()))
    }

    /// `other` has the box of `self`, upright or turned.
    pub open spec fn box_of(self, other: Piece) -> bool {
        ||| other.width == self.width && other.height == self.height
        ||| other.width == self.height && other.height == self.width
    }

    /// Every orientation is a well-formed piece in the box of `self`, upright or turned.
    pub proof fn lemma_orientations_well_formed(self)
        requires
            self.fits_grid(),
        ensures
            self.orientations().len() == 8,
            forall|i: int| 0 <= i < 8 ==> (#[trigger] self.orientations()[i]).well_formed(),
            forall|i: int| 0 <= i < 8 ==> self.box_of(#[trigger] self.orientations()[i]),
    {
        let o = self.orientations();
        self.lemma_rotated_cells();
        o[0].lemma_rotated_cells();
        o[1].lemma_rotated_cells();
        o[2].lemma_rotated_cells();
        o[3].lemma_rotated_cells();
        o[3].rotated().lemma_mirrored_cells();
        o[4].lemma_rotated_cells();
        o[5].lemma_rotated_cells();
        o[6].lemma_rotated_cells();
    }

    /// Every orientation has as many cells as the piece has inside its box:
    /// as many as the piece where it is confined to its box, fewer where it is not.
    pub proof fn lemma_orientations_cell_count(self)
        requires
            self.fits_grid(),
        ensures
            forall|i: int|
                0 <= i < 8 ==> popcount((#[trigger] self.orientations()[i]).shape) == popcount(
                    self.rotated().shape,
                ),
            self.confined() ==> popcount(self.rotated().shape) == popcount(self.shape),
            !self.confined() ==> popcount(self.rotated().shape) < popcount(self.shape),
    {
        let o = self.orientations();
        self.lemma_orientations_well_formed();
        if self.confined() {
            lemma_rotation_keeps_cell_count(self);
        } else {
            lemma_rotation_drops_outside_cells(self);
        }
        lemma_rotation_keeps_cell_count(o[0]);
        lemma_rotation_keeps_cell_count(o[1]);
        lemma_rotation_keeps_cell_count(o[2]);
        lemma_rotation_keeps_cell_count(o[3]);
        o[3].lemma_rotated_cells();
        lemma_mirror_keeps_cell_count(o[3].rotated());
        lemma_rotation_keeps_cell_count(o[4]);
        lemma_rotation_keeps_cell_count(o[5]);
        lemma_rotation_keeps_cell_count(o[6]);
    }

    /// Every orientation of a piece in its bounding box is a piece in its bounding box.
    pub proof fn lemma_orientations_bounding(self)
        requires
            self.is_bounding_box(),
        ensures
            forall|i: int| 0 <= i < 8 ==> (#[trigger] self.orientations()[i]).is_bounding_box(),
    {
        let o = self.orientations();
        lemma_rotation_keeps_bounding_box(self);
        lemma_rotation_keeps_bounding_box(o[0]);
        lemma_rotation_keeps_bounding_box(o[1]);
        lemma_rotation_keeps_bounding_box(o[2]);
        lemma_rotation_keeps_bounding_box(o[3]);
        lemma_mirror_keeps_bounding_box(o[3].rotated());
        lemma_rotation_keeps_bounding_box(o[4]);
        lemma_rotation_keeps_bounding_box(o[5]);
        lemma_rotation_keeps_bounding_box(o[6]);
    }

    /// The variants are the orientations, each once: strictly in order,
    /// so ascending by shape and no piece twice, nothing added and nothing lost.
    pub proof fn lemma_variants_are_orientations(self)
        ensures
            1 <= self.variants().len() <= 8,
            strictly_in_order(self.variants()),
            ascending_by_shape(self.variants()),
            pairwise_distinct(self.variants()),
            forall|q: Piece| self.variants().contains(q) <==> self.orientations().contains(q),
            forall|i: int|
                0 <= i < self.variants().len() ==> self.orientations().contains(
                    #[trigger] self.variants()[i],
                ),
    {
        let o = self.orientations();
        let v = self.variants();
        assert(o.len() == 8);
        lemma_sorted_pieces(o);
        lemma_without_repeats(sorted_pieces(o));
        lemma_strictly_in_order(v);
        assert forall|i: int| 0 <= i < v.len() implies o.contains(#[trigger] v[i]) by {
            assert(v.contains(v[i]));
        }
    }

    /// Every variant is a well-formed piece in the box of `self`, upright or turned.
    pub proof fn lemma_variants_well_formed(self)
        requires
            self.fits_grid(),
        ensures
            forall|i: int|
                0 <= i < self.variants().len() ==> (#[trigger] self.variants()[i]).well_formed(),
            forall|i: int|
                0 <= i < self.variants().len() ==> self.box_of(#[trigger] self.variants()[i]),
    {
        let o = self.orientations();
        let v = self.variants();
        self.lemma_variants_are_orientations();
        self.lemma_orientations_well_formed();
        assert forall|i: int| 0 <= i < v.len() implies (#[trigger] v[i]).well_formed()
            && self.box_of(v[i]) by {
            assert(o.contains(v[i]));
            let k = choose|k: int| 0 <= k < o.len() && o[k] == v[i];
            assert(o[k].well_formed() && self.box_of(o[k]));
        }
    }

    /// A well-formed piece is one of its own variants. Every variant has
    /// as many cells as the piece exactly when the piece is confined to its box.
    pub proof fn lemma_variants_keep_cell_count(self)
        requires
            self.fits_grid(),
        ensures
            self.confined() ==> self.variants().contains(self),
            self.confined() <==> forall|i: int|
                0 <= i < self.variants().len() ==> popcount((#[trigger] self.variants()[i]).shape)
                    == popcount(self.shape),
    {
        let o = self.orientations();
        let v = self.variants();
        self.lemma_variants_are_orientations();
        self.lemma_orientations_cell_count();
        assert forall|i: int| 0 <= i < v.len() implies popcount((#[trigger] v[i]).shape)
            == popcount(self.rotated().shape) by {
            assert(o.contains(v[i]));
            let k = choose|k: int| 0 <= k < o.len() && o[k] == v[i];
            assert(popcount(o[k].shape) == popcount(self.rotated().shape));
        }
        if self.confined() {
            assert(o.contains(self)) by {
                lemma_four_rotations(self);
                assert(o[3] == self);
            }
        } else {
            assert(popcount(v[0].shape) < popcount(self.shape));
        }
    }

    /// No variant has more cells than the piece.
    pub proof fn lemma_variants_cells_at_most(self)
        requires
            self.fits_grid(),
        ensures
            forall|i: int|
                0 <= i < self.variants().len() ==> popcount((#[trigger] self.variants()[i]).shape)
                    <= popcount(self.shape),
    {
        let o = self.orientations();
        let v = self.variants();
        self.lemma_variants_are_orientations();
        self.lemma_orientations_cell_count();
        assert forall|i: int| 0 <= i < v.len() implies popcount((#[trigger] v[i]).shape)
            <= popcount(self.shape) by {
            assert(o.contains(v[i]));
            let k = choose|k: int| 0 <= k < o.len() && o[k] == v[i];
            assert(popcount(o[k].shape) == popcount(self.rotated().shape));
        }
    }

    /// The variants of a piece in its bounding box are strictly ascending
    /// by shape: no shape occurs with two boxes.
    pub proof fn lemma_variants_shapes_differ(self)
        requires
            self.is_bounding_box(),
        ensures
            strictly_ascending_by_shape(self.variants()),
    {
        let o = self.orientations();
        let v = self.variants();
        self.lemma_variants_are_orientations();
        self.lemma_orientations_bounding();
        assert forall|i: int, j: int|
            0 <= i < v.len() && 0 <= j < v.len() && v[i].shape == v[j].shape implies v[i]
            == v[j] by {
            assert(o.contains(v[i]) && o.contains(v[j]));
            let a = choose|a: int| 0 <= a < o.len() && o[a] == v[i];
            let b = choose|b: int| 0 <= b < o.len() && o[b] == v[j];
            assert(o[a].is_bounding_box() && o[b].is_bounding_box());
            lemma_shape_decides_box(o[a], o[b]);
        }
        lemma_strictly_ascending(v);
    }

    /// The distinct orientations of the piece under quarter turns and
    /// mirroring, each once, in ascending order of shape; an upright and a
    /// lying orientation of one shape stand by width, then height.
    pub fn get_variants(&self) -> (variants: Vec<Piece>)
        requires
            self.fits_grid(),
        ensures
            variants@ == self.variants(),
            1 <= variants.len() <= 8,
            forall|q: Piece| variants@.contains(q) <==> self.orientations().contains(q),
            pairwise_distinct(variants@),
            ascending_by_shape(variants@),
            strictly_in_order(variants@),
            forall|i: int| 0 <= i < variants.len() ==> (#[trigger] variants[i]).well_formed(),
            forall|i: int| 0 <= i < variants.len() ==> self.box_of(#[trigger] variants[i]),
            self.confined() ==> variants@.contains(*self),
            self.confined() <==> forall|i: int|
                0 <= i < variants.len() ==> popcount((#[trigger] variants[i]).shape) == popcount(
                    self.shape,
                ),
            self.is_bounding_box() ==> strictly_ascending_by_shape(variants@),
    {
        let r1 = self.rotate_right();
        let r2 = r1.rotate_right();
        let r3 = r2.rotate_right();
        let r4 = r3.rotate_right();
        let m1 = r4.rotate_right().mirror();
        let m2 = m1.rotate_right();
        let m3 = m2.rotate_right();
        let m4 = m3.rotate_right();
        let mut variants: Vec<Piece> = vec![r1, r2, r3, r4, m1, m2, m3, m4];
        assert(variants@ == self.orientations());
        sort_pieces(&mut variants);
        remove_repeats(&mut variants);
        proof {
            self.lemma_variants_are_orientations();
            self.lemma_variants_well_formed();
            self.lemma_variants_keep_cell_count();
            if self.is_bounding_box() {
                self.lemma_variants_shapes_differ();
            }
        }
        variants
    }
}

} // verus!
