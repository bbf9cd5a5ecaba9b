use crate::piece::Piece;
use crate::bits::{popcount, total, union_of};
use crate::search_laws::{
    at_most_eight_variants, cells_at_most, clear_from, lemma_attempts_exceed_solutions,
    lemma_attempts_fit_counter, lemma_solution_cells, lemma_solutions_complete_partial,
    rejections,
};
use vstd::prelude::*;

verus! {

/// How far a shape is shifted to stand at column offset `x` and row offset
/// `y`: one column and one row beyond the offset, because column 0 and
/// row 0 of the board belong to the border.
pub open spec fn shift_of(x: int, y: int) -> int {
    (x + 1) + (y + 1) * 8
}

/// The mask of `p` placed at column offset `x` and row offset `y`.
pub open spec fn placed(p: Piece, x: int, y: int) -> u64 {
    p.shape << (shift_of(x, y) as u64)
}

impl Piece {
    /// The number of column offsets at which the piece is tried.
    pub open spec fn column_offsets(self) -> int {
        if self.width < 8 {
            8 - self.width
        } else {
            0
        }
    }

    /// The number of row offsets at which the piece is tried.
    pub open spec fn row_offsets(self) -> int {
        if self.height < 8 {
            8 - self.height
        } else {
            0
        }
    }

    /// The piece can be placed as it stands and turned by a quarter.
    pub open spec fn placeable_either_way(self) -> bool {
        self.placeable() && (Piece {
            shape: self.shape,
            width: self.height,
            height: self.width,
        }).placeable()
    }

    /// The piece fits the grid, and even its farthest offset shifts the
    /// shape by less than the width of the board word.
    pub open spec fn placeable(self) -> bool {
        self.fits_grid() && (self.width < 8 && self.height < 8 ==> shift_of(
            7 - self.width,
            7 - self.height,
        ) < 64)
    }

    /// Tells whether the search can place the piece.
    pub fn is_placeable(&self) -> (ok: bool)
        ensures
            ok == self.placeable(),
    {
        self.width <= 8 && self.height <= 8 && (self.width == 8 || self.height == 8 || (8
            - self.width) + (8 - self.height) * 8 < 64)
    }
}

/// The placements of `p` in row offset `y` at the first `nx` column offsets, left to right.
pub open spec fn row_candidates(p: Piece, y: int, nx: int) -> Seq<u64> {
    Seq::new(
        if nx > 0 {
            nx as nat
        } else {
            0
        },
        |x: int| placed(p, x, y),
    )
}

/// The placements of `p` in its first `ny` row offsets, row by row.
pub open spec fn variant_candidates(p: Piece, ny: int) -> Seq<u64>
    decreases ny,
{
    if ny <= 0 {
        Seq::empty()
    } else {
        variant_candidates(p, ny - 1) + row_candidates(p, ny - 1, p.column_offsets())
    }
}

/// The placements of the first `nv` variants, variant by variant.
pub open spec fn slot_candidates(variants: Seq<Piece>, nv: int) -> Seq<u64>
    decreases nv,
{
    if nv <= 0 {
        Seq::empty()
    } else {
        slot_candidates(variants, nv - 1) + variant_candidates(
            variants[nv - 1],
            variants[nv - 1].row_offsets(),
        )
    }
}

/// Every placement of every variant, in the order in which the search tries them.
pub open spec fn candidates(variants: Seq<Piece>) -> Seq<u64> {
    slot_candidates(variants, variants.len() as int)
}

/// The solutions found from slot `index` on, in the order in which they
/// are found: `partial` completed in every way that puts one placement of
/// each remaining slot on the board without touching an occupied cell.
pub open spec fn solutions(
    board: u64,
    slots: Seq<Seq<Piece>>,
    index: int,
    partial: Seq<u64>,
) -> Seq<Seq<u64>>
    decreases 8 - index, 1int, 0nat,
{
    if index >= 8 {
        seq![partial]
    } else {
        solutions_over(board, slots, index, partial, candidates(slots[index]))
    }
}

/// The solutions found by trying the placements `masks` for slot `index`, one after the other.
pub open spec fn solutions_over(
    board: u64,
    slots: Seq<Seq<Piece>>,
    index: int,
    partial: Seq<u64>,
    masks: Seq<u64>,
) -> Seq<Seq<u64>>
    decreases 8 - index, 0int, masks.len(),
{
    if index >= 8 || masks.len() == 0 {
        Seq::empty()
    } else {
        let found = solutions_over(board, slots, index, partial, masks.drop_last());
        let mask = masks.last();
        if board & mask != 0 {
            found
        } else {
            found + solutions(board | mask, slots, index + 1, partial.update(index, mask))
        }
    }
}

/// The number of placements tried from slot `index` on, rejected ones included.
pub open spec fn attempts(board: u64, slots: Seq<Seq<Piece>>, index: int) -> nat
    decreases 8 - index, 1int, 0nat,
{
    if index >= 8 {
        0
    } else {
        attempts_over(board, slots, index, candidates(slots[index]))
    }
}

/// The number of placements tried while the placements `masks` are tried for slot `index`.
pub open spec fn attempts_over(board: u64, slots: Seq<Seq<Piece>>, index: int, masks: Seq<u64>) -> nat
    decreases 8 - index, 0int, masks.len(),
{
    if index >= 8 || masks.len() == 0 {
        0
    } else {
        let before = attempts_over(board, slots, index, masks.drop_last());
        let mask = masks.last();
        if board & mask != 0 {
            before + 1
        } else {
            before + 1 + attempts(board | mask, slots, index + 1)
        }
    }
}

/// The variant lists of the eight slots as sequences.
pub open spec fn slots_of(pieces: [Vec<Piece>; 8]) -> Seq<Seq<Piece>> {
    Seq::new(8, |k: int| pieces[k]@)
}

/// Every variant of every slot from `index` on can be placed.
pub open spec fn all_placeable(slots: Seq<Seq<Piece>>, index: int) -> bool {
    forall|k: int, v: int|
        index <= k < slots.len() && 0 <= v < slots[k].len() ==> (#[trigger] slots[k][v]).placeable()
}

/// `after` is `before` with the solutions `found` appended in order.
pub open spec fn appended(before: Seq<[u64; 8]>, found: Seq<Seq<u64>>, after: Seq<[u64; 8]>) -> bool {
    &&& after.len() == before.len() + found.len()
    &&& forall|i: int| 0 <= i < before.len() ==> after[i] == before[i]
    &&& forall|j: int| 0 <= j < found.len() ==> (#[trigger] after[before.len() + j])@ == found[j]
}

/// The placements tried before the search reaches column offset `x` of
/// row offset `y` of variant `v`.
spec fn tried(variants: Seq<Piece>, v: int, y: int, x: int) -> Seq<u64> {
    slot_candidates(variants, v) + variant_candidates(variants[v], y) + row_candidates(
        variants[v],
        y,
        x,
    )
}

proof fn lemma_tried_steps(variants: Seq<Piece>, v: int, y: int, x: int)
    requires
        0 <= v,
        0 <= y,
        0 <= x,
    ensures
        tried(variants, v, y, x + 1) == tried(variants, v, y, x).push(placed(variants[v], x, y)),
        tried(variants, v, y, variants[v].column_offsets()) == tried(variants, v, y + 1, 0),
        tried(variants, v, variants[v].row_offsets(), 0) == tried(variants, v + 1, 0, 0),
        tried(variants, variants.len() as int, 0, 0) == candidates(variants),
{
    let p = variants[v];
    assert(row_candidates(p, y, x + 1) =~= row_candidates(p, y, x).push(placed(p, x, y)));
    assert(tried(variants, v, y, x + 1) =~= tried(variants, v, y, x).push(placed(p, x, y)));
    assert(tried(variants, v, y, p.column_offsets()) =~= tried(variants, v, y + 1, 0));
    assert(tried(variants, v, p.row_offsets(), 0) =~= tried(variants, v + 1, 0, 0));
    assert(tried(variants, variants.len() as int, 0, 0) =~= candidates(variants));
}

proof fn lemma_prefix_chain(a: Seq<u64>, b: Seq<u64>, c: Seq<u64>)
    requires
        a.is_prefix_of(b),
        b.is_prefix_of(c),
    ensures
        a.is_prefix_of(c),
{
}

proof fn lemma_rows_tried_in_order(variants: Seq<Piece>, v: int, y: int)
    requires
        0 <= v,
        0 <= y <= variants[v].row_offsets(),
    ensures
        tried(variants, v, y, 0).is_prefix_of(tried(variants, v + 1, 0, 0)),
    decreases variants[v].row_offsets() - y,
{
    lemma_tried_steps(variants, v, y, 0);
    if y < variants[v].row_offsets() {
        lemma_rows_tried_in_order(variants, v, y + 1);
        assert(tried(variants, v, y, 0).is_prefix_of(
            tried(variants, v, y, variants[v].column_offsets()),
        ));
        lemma_prefix_chain(
            tried(variants, v, y, 0),
            tried(variants, v, y + 1, 0),
            tried(variants, v + 1, 0, 0),
        );
    }
}

proof fn lemma_variants_tried_in_order(variants: Seq<Piece>, v: int)
    requires
        0 <= v <= variants.len(),
    ensures
        tried(variants, v, 0, 0).is_prefix_of(candidates(variants)),
    decreases variants.len() - v,
{
    lemma_tried_steps(variants, v, 0, 0);
    if v < variants.len() {
        lemma_variants_tried_in_order(variants, v + 1);
        lemma_rows_tried_in_order(variants, v, 0);
        lemma_prefix_chain(
            tried(variants, v, 0, 0),
            tried(variants, v + 1, 0, 0),
            candidates(variants),
        );
    }
}

/// What has been tried at any point of a slot is the front of all its placements.
proof fn lemma_tried_is_prefix(variants: Seq<Piece>, v: int, y: int, x: int)
    requires
        0 <= v < variants.len(),
        0 <= y < variants[v].row_offsets(),
        0 <= x <= variants[v].column_offsets(),
    ensures
        tried(variants, v, y, x).is_prefix_of(candidates(variants)),
{
    lemma_tried_steps(variants, v, y, 0);
    assert(tried(variants, v, y, x).is_prefix_of(
        tried(variants, v, y, variants[v].column_offsets()),
    ));
    lemma_rows_tried_in_order(variants, v, y + 1);
    lemma_variants_tried_in_order(variants, v + 1);
    lemma_prefix_chain(
        tried(variants, v, y, x),
        tried(variants, v, y + 1, 0),
        tried(variants, v + 1, 0, 0),
    );
    lemma_prefix_chain(tried(variants, v, y, x), tried(variants, v + 1, 0, 0), candidates(variants));
}

/// Trying more placements never lowers the number of attempts.
proof fn lemma_attempts_grow(
    board: u64,
    slots: Seq<Seq<Piece>>,
    index: int,
    fewer: Seq<u64>,
    more: Seq<u64>,
)
    requires
        fewer.is_prefix_of(more),
    ensures
        attempts_over(board, slots, index, fewer) <= attempts_over(board, slots, index, more),
    decreases more.len(),
{
    if fewer.len() < more.len() {
        lemma_attempts_grow(board, slots, index, fewer, more.drop_last());
    } else {
        assert(fewer =~= more);
    }
}

/// The solutions found do not depend on what `partial` holds from slot `index` on.
pub proof fn lemma_solutions_ignore_open_slots(
    board: u64,
    slots: Seq<Seq<Piece>>,
    index: int,
    partial: Seq<u64>,
    other: Seq<u64>,
)
    requires
        0 <= index <= 8,
        partial.len() == 8,
        other.len() == 8,
        forall|k: int| 0 <= k < index ==> partial[k] == other[k],
    ensures
        solutions(board, slots, index, partial) == solutions(board, slots, index, other),
    decreases 8 - index, 1int, 0nat,
{
    if index >= 8 {
        assert(partial =~= other);
    } else {
        lemma_solutions_over_ignore_open_slots(
            board,
            slots,
            index,
            partial,
            other,
            candidates(slots[index]),
        );
    }
}

proof fn lemma_solutions_over_ignore_open_slots(
    board: u64,
    slots: Seq<Seq<Piece>>,
    index: int,
    partial: Seq<u64>,
    other: Seq<u64>,
    masks: Seq<u64>,
)
    requires
        0 <= index < 8,
        partial.len() == 8,
        other.len() == 8,
        forall|k: int| 0 <= k < index ==> partial[k] == other[k],
    ensures
        solutions_over(board, slots, index, partial, masks) == solutions_over(
            board,
            slots,
            index,
            other,
            masks,
        ),
    decreases 8 - index, 0int, masks.len(),
{
    if masks.len() > 0 {
        lemma_solutions_over_ignore_open_slots(
            board,
            slots,
            index,
            partial,
            other,
            masks.drop_last(),
        );
        let mask = masks.last();
        if board & mask == 0 {
            lemma_solutions_ignore_open_slots(
                board | mask,
                slots,
                index + 1,
                partial.update(index, mask),
                other.update(index, mask),
            );
        }
    }
}

/// Places the pieces of the slots from `index` on in every way that
/// keeps each piece clear of the occupied cells, and records each complete
/// placement of all eight slots.
///
/// Every placement tried adds one to `counter`, whether it fits or not.
/// `current_solution` holds the placements of the slots below `index`;
/// it is used as working space and handed back as it was received.
/// The recorded solutions are appended to `all_solutions` in the order
/// in which they are found; none of their placements from slot `index` on
/// touches the board or another.
///
/// The counter must have room for the placements tried. It has where no
/// open slot holds more than eight variants and the counter stands below
/// 2 to the 127th: see `lemma_attempts_fit_counter`. `find_solutions`
/// starts the counter itself and asks for no such room.
pub fn solve_puzzle(
    board: u64,
    pieces: &[Vec<Piece>; 8],
    index: u64,
    current_solution: &mut [u64; 8],
    all_solutions: &mut Vec<[u64; 8]>,
    counter: &mut u128,
)
    requires
        index <= 8,
        all_placeable(slots_of(*pieces), index as int),
        *old(counter) + attempts(board, slots_of(*pieces), index as int) <= u128::MAX,
    ensures
        *final(current_solution) == *old(current_solution),
        appended(
            old(all_solutions)@,
            solutions(board, slots_of(*pieces), index as int, old(current_solution)@),
            final(all_solutions)@,
        ),
        *final(counter) == *old(counter) + attempts(board, slots_of(*pieces), index as int),
        forall|i: int|
            old(all_solutions)@.len() <= i < final(all_solutions)@.len() ==> clear_from(
                board,
                (#[trigger] final(all_solutions)@[i])@,
                index as int,
            ),
        rejections(board, slots_of(*pieces), index as int) > 0 ==> *final(counter) - *old(counter)
            > final(all_solutions)@.len() - old(all_solutions)@.len(),
    decreases 8 - index,
{
    proof {
        if rejections(board, slots_of(*pieces), index as int) > 0 {
            lemma_attempts_exceed_solutions(
                board,
                slots_of(*pieces),
                index as int,
                current_solution@,
            );
        }
        let found = solutions(board, slots_of(*pieces), index as int, current_solution@);
        assert forall|j: int| 0 <= j < found.len() implies clear_from(
            board,
            #[trigger] found[j],
            index as int,
        ) by {
            lemma_solutions_complete_partial(
                board,
                slots_of(*pieces),
                index as int,
                current_solution@,
                j,
            );
        }
    }
    if index == 8 {
        all_solutions.push(*current_solution);
        return ;
    }
    let slot: usize = index as usize;
    let ghost slots = slots_of(*pieces);
    let ghost variants = slots[index as int];
    let ghost partial = current_solution@;
    let ghost recorded = all_solutions@;
    let ghost counted = *counter;
    let kept: u64 = current_solution[slot];
    let n: usize = pieces[slot].len();
    proof {
        lemma_tried_steps(variants, 0, 0, 0);
        assert(tried(variants, 0, 0, 0) =~= Seq::<u64>::empty());
    }
    for v in 0..n
        invariant
            index < 8,
            slot == index,
            slots == slots_of(*pieces),
            variants == slots[index as int],
            variants == pieces[slot as int]@,
            n == variants.len(),
            all_placeable(slots, index as int),
            partial.len() == 8,
            current_solution@ == partial.update(index as int, current_solution@[index as int]),
            appended(
                recorded,
                solutions_over(board, slots, index as int, partial, tried(variants, v as int, 0, 0)),
                all_solutions@,
            ),
            *counter == counted + attempts_over(
                board,
                slots,
                index as int,
                tried(variants, v as int, 0, 0),
            ),
            counted + attempts_over(board, slots, index as int, candidates(variants)) <= u128::MAX,
    {
        let variant: Piece = pieces[slot][v];
        assert(variant == variants[v as int]);
        assert(slots[index as int][v as int].placeable());
        let rows: u64 = 8 - variant.height;
        let columns: u64 = 8 - variant.width;
        for y in 0..rows
            invariant
                index < 8,
                slot == index,
                slots == slots_of(*pieces),
                variants == slots[index as int],
                n == variants.len(),
                v < n,
                variant == variants[v as int],
                variant.placeable(),
                rows == 8 - variant.height,
                columns == 8 - variant.width,
                all_placeable(slots, index as int),
                partial.len() == 8,
                current_solution@ == partial.update(index as int, current_solution@[index as int]),
                appended(
                    recorded,
                    solutions_over(
                        board,
                        slots,
                        index as int,
                        partial,
                        tried(variants, v as int, y as int, 0),
                    ),
                    all_solutions@,
                ),
                *counter == counted + attempts_over(
                    board,
                    slots,
                    index as int,
                    tried(variants, v as int, y as int, 0),
                ),
                counted + attempts_over(board, slots, index as int, candidates(variants))
                    <= u128::MAX,
        {
            for x in 0..columns
                invariant
                    index < 8,
                    slot == index,
                    slots == slots_of(*pieces),
                    variants == slots[index as int],
                    n == variants.len(),
                    v < n,
                    y < rows,
                    variant == variants[v as int],
                    variant.placeable(),
                    rows == 8 - variant.height,
                    columns == 8 - variant.width,
                    all_placeable(slots, index as int),
                    partial.len() == 8,
                    current_solution@ == partial.update(
                        index as int,
                        current_solution@[index as int],
                    ),
                    appended(
                        recorded,
                        solutions_over(
                            board,
                            slots,
                            index as int,
                            partial,
                            tried(variants, v as int, y as int, x as int),
                        ),
                        all_solutions@,
                    ),
                    *counter == counted + attempts_over(
                        board,
                        slots,
                        index as int,
                        tried(variants, v as int, y as int, x as int),
                    ),
                    counted + attempts_over(board, slots, index as int, candidates(variants))
                        <= u128::MAX,
            {
                let moved_piece: u64 = variant.shape << ((x + 1) + (y + 1) * 8);
                let ghost before = tried(variants, v as int, y as int, x as int);
                let ghost after = tried(variants, v as int, y as int, x + 1);
                proof {
                    assert(moved_piece == placed(variant, x as int, y as int));
                    lemma_tried_steps(variants, v as int, y as int, x as int);
                    assert(after.drop_last() =~= before);
                    assert(after.last() == moved_piece);
                    lemma_tried_is_prefix(variants, v as int, y as int, x + 1);
                    lemma_attempts_grow(board, slots, index as int, after, candidates(variants));
                }
                *counter += 1;
                if (board & moved_piece) == 0 {
                    let new_board: u64 = board | moved_piece;
                    current_solution[slot] = moved_piece;
                    let ghost earlier = all_solutions@;
                    proof {
                        assert(current_solution@ =~= partial.update(index as int, moved_piece));
                    }
                    solve_puzzle(
                        new_board,
                        pieces,
                        index + 1,
                        current_solution,
                        all_solutions,
                        counter,
                    );
                    proof {
                        let found = solutions_over(board, slots, index as int, partial, before);
                        let deeper = solutions(
                            new_board,
                            slots,
                            index + 1,
                            partial.update(index as int, moved_piece),
                        );
                        assert(appended(earlier, deeper, all_solutions@));
                        assert(appended(recorded, found + deeper, all_solutions@)) by {
                            assert forall|j: int| 0 <= j < (found + deeper).len() implies (
                            #[trigger] all_solutions@[recorded.len() + j])@ == (found + deeper)[j] by {
                                if j >= found.len() {
                                    assert(all_solutions@[earlier.len() + (j - found.len())]@
                                        == deeper[j - found.len()]);
                                } else {
                                    assert(all_solutions@[recorded.len() + j] == earlier[recorded.len() + j]);
                                }
                            }
                        }
                    }
                }
            }
            proof {
                lemma_tried_steps(variants, v as int, y as int, 0);
            }
        }
        proof {
            lemma_tried_steps(variants, v as int, 0, 0);
        }
    }
    proof {
        lemma_tried_steps(variants, n as int, 0, 0);
    }
    current_solution[slot] = kept;
    proof {
        assert(current_solution@ =~= partial);
        let found = solutions(board, slots, index as int, partial);
        assert forall|i: int| recorded.len() <= i < all_solutions@.len() implies clear_from(
            board,
            (#[trigger] all_solutions@[i])@,
            index as int,
        ) by {
            let j = i - recorded.len();
            assert(all_solutions@[recorded.len() + j]@ == found[j]);
        }
    }
}

/// The variant lists of eight pieces, slot by slot.
pub open spec fn variant_slots(pieces: [Piece; 8]) -> Seq<Seq<Piece>> {
    Seq::new(8, |k: int| pieces[k].variants())
}

/// The variants of a piece that can be placed as it stands and turned:
/// each of them can be placed.
fn placeable_variants(piece: &Piece) -> (variants: Vec<Piece>)
    requires
        piece.placeable_either_way(),
    ensures
        variants@ == piece.variants(),
        variants.len() <= 8,
        forall|v: int| 0 <= v < variants.len() ==> (#[trigger] variants[v]).placeable(),
        forall|v: int|
            0 <= v < variants.len() ==> popcount((#[trigger] variants[v]).shape) <= popcount(
                piece.shape,
            ),
{
    let variants = piece.get_variants();
    proof {
        piece.lemma_variants_cells_at_most();
        assert forall|v: int| 0 <= v < variants.len() implies (#[trigger] variants[v]).placeable() by {
            assert(piece.box_of(variants[v]));
        }
    }
    variants
}

/// The numbers of cells of eight pieces, slot by slot.
pub open spec fn cell_counts(pieces: [Piece; 8]) -> Seq<nat> {
    Seq::new(8, |k: int| popcount(pieces[k].shape))
}

/// The variant lists of eight pieces that can be placed as they stand and turned.
fn variant_lookup(pieces: &[Piece; 8]) -> (lookup: [Vec<Piece>; 8])
    requires
        forall|k: int| 0 <= k < 8 ==> (#[trigger] pieces[k]).placeable_either_way(),
    ensures
        slots_of(lookup) == variant_slots(*pieces),
        all_placeable(slots_of(lookup), 0),
        at_most_eight_variants(slots_of(lookup), 0),
        cells_at_most(slots_of(lookup), cell_counts(*pieces)),
{
    let lookup: [Vec<Piece>; 8] = [
        placeable_variants(&pieces[0]),
        placeable_variants(&pieces[1]),
        placeable_variants(&pieces[2]),
        placeable_variants(&pieces[3]),
        placeable_variants(&pieces[4]),
        placeable_variants(&pieces[5]),
        placeable_variants(&pieces[6]),
        placeable_variants(&pieces[7]),
    ];
    proof {
        let slots = slots_of(lookup);
        assert forall|k: int| 0 <= k < 8 implies #[trigger] slots[k] == pieces[k].variants()
            && slots[k] == lookup[k]@ by {}
        assert(slots =~= variant_slots(*pieces));
    }
    lookup
}

/// Builds the variants of the eight pieces and searches the whole board:
/// returns every way to place one variant of each piece clear of the
/// occupied cells of `board` and of each other, with the number of
/// placements tried. A solution covers, with the board, no more cells
/// than the board and the pieces have together.
pub fn find_solutions(board: u64, pieces: &[Piece; 8]) -> (found: (Vec<[u64; 8]>, u128))
    requires
        forall|k: int| 0 <= k < 8 ==> (#[trigger] pieces[k]).placeable_either_way(),
    ensures
        appended(
            Seq::empty(),
            solutions(board, variant_slots(*pieces), 0, Seq::new(8, |k: int| 0u64)),
            found.0@,
        ),
        found.1 == attempts(board, variant_slots(*pieces), 0),
        forall|i: int| 0 <= i < found.0@.len() ==> clear_from(board, (#[trigger] found.0@[i])@, 0),
        rejections(board, variant_slots(*pieces), 0) > 0 ==> found.1 > found.0@.len(),
        forall|i: int|
            0 <= i < found.0@.len() ==> popcount(board | union_of((#[trigger] found.0@[i])@))
                <= popcount(board) + total(cell_counts(*pieces)),
{
    let lookup = variant_lookup(pieces);
    let mut current: [u64; 8] = [0; 8];
    let mut all_solutions: Vec<[u64; 8]> = Vec::new();
    let mut counter: u128 = 0;
    proof {
        assert(current@ =~= Seq::new(8, |k: int| 0u64));
        lemma_attempts_fit_counter(board, slots_of(lookup), 0);
    }
    solve_puzzle(board, &lookup, 0, &mut current, &mut all_solutions, &mut counter);
    proof {
        let slots = slots_of(lookup);
        let zeros = Seq::new(8, |k: int| 0u64);
        assert forall|i: int| 0 <= i < all_solutions@.len() implies popcount(
            board | union_of((#[trigger] all_solutions@[i])@),
        ) <= popcount(board) + total(cell_counts(*pieces)) by {
            assert(all_solutions@[0 + i]@ == solutions(board, slots, 0, zeros)[i]);
            lemma_solution_cells(board, slots, zeros, cell_counts(*pieces), i);
        }
    }
    (all_solutions, counter)
}

} // verus!
