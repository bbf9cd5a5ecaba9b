use crate::bits::{
    bit_set, free_cells, lemma_popcount_within, popcount, single_bit, total, union_of,
};
use crate::piece::Piece;
use crate::search::{all_placeable, attempts, solutions};
use crate::search_laws::{
    at_most_eight_variants, cells_at_most, lemma_attempts_fit_counter, lemma_solution_cells,
};
use vstd::prelude::*;

verus! {

/// The cells of the 8x8 grid that no piece may cover: row 0, column 0
/// and the corners that the calendar board lacks.
pub const PUZZLE_BORDER: u64 = 0x0303010101011FFF;

/// The eight pieces of the puzzle, in slot order.
pub open spec fn puzzle_pieces() -> Seq<Piece> {
    seq![
        Piece { shape: 0x10303, width: 2, height: 3 },
        Piece { shape: 0x10107, width: 3, height: 3 },
        Piece { shape: 0x30103, width: 2, height: 3 },
        Piece { shape: 0x1010103, width: 2, height: 4 },
        Piece { shape: 0x2030101, width: 2, height: 4 },
        Piece { shape: 0x30303, width: 2, height: 3 },
        Piece { shape: 0x60203, width: 3, height: 3 },
        Piece { shape: 0x1030101, width: 2, height: 4 },
    ]
}

/// A well-formed piece with a cell on each side of its box is in its bounding box.
proof fn lemma_bounding_box_from_cells(p: Piece, left: int, right: int, top: int, bottom: int)
    requires
        p.well_formed(),
        p.has_cell(0, left),
        p.has_cell(p.width - 1, right),
        p.has_cell(top, 0),
        p.has_cell(bottom, p.height - 1),
    ensures
        p.is_bounding_box(),
{
}

/// The number of cells of each of the eight pieces, in slot order.
pub open spec fn puzzle_cells() -> Seq<nat> {
    seq![5, 5, 5, 5, 5, 6, 5, 5]
}

proof fn lemma_p_piece()
    ensures
        puzzle_pieces()[0].is_bounding_box(),
        popcount(puzzle_pieces()[0].shape) <= 5,
{
    assert forall|i: int| #[trigger] bit_set(0x10303, i) implies set![0int, 1, 8, 9, 16].contains(i) by {
        let s = i as u64;
        assert(0x10303u64 & (1u64 << s) != 0 ==> s == 0 || s == 1 || s == 8 || s == 9 || s == 16) by (bit_vector)
            requires
                s < 64,
        ;
    }
    lemma_popcount_within(0x10303, set![0int, 1, 8, 9, 16]);
    assert(0x10303u64 & (1u64 << 0u64) != 0 && 0x10303u64 & (1u64 << 1u64) != 0 && 0x10303u64 & (1u64 << 16u64) != 0) by (bit_vector);
    lemma_bounding_box_from_cells(puzzle_pieces()[0], 0, 0, 0, 0);
}

proof fn lemma_corner_piece()
    ensures
        puzzle_pieces()[1].is_bounding_box(),
        popcount(puzzle_pieces()[1].shape) <= 5,
{
    assert forall|i: int| #[trigger] bit_set(0x10107, i) implies set![0int, 1, 2, 8, 16].contains(i) by {
        let s = i as u64;
        assert(0x10107u64 & (1u64 << s) != 0 ==> s == 0 || s == 1 || s == 2 || s == 8 || s == 16) by (bit_vector)
            requires
                s < 64,
        ;
    }
    lemma_popcount_within(0x10107, set![0int, 1, 2, 8, 16]);
    assert(0x10107u64 & (1u64 << 0u64) != 0 && 0x10107u64 & (1u64 << 2u64) != 0 && 0x10107u64 & (1u64 << 16u64) != 0) by (bit_vector);
    lemma_bounding_box_from_cells(puzzle_pieces()[1], 0, 0, 0, 0);
}

proof fn lemma_u_piece()
    ensures
        puzzle_pieces()[2].is_bounding_box(),
        popcount(puzzle_pieces()[2].shape) <= 5,
{
    assert forall|i: int| #[trigger] bit_set(0x30103, i) implies set![0int, 1, 8, 16, 17].contains(i) by {
        let s = i as u64;
        assert(0x30103u64 & (1u64 << s) != 0 ==> s == 0 || s == 1 || s == 8 || s == 16 || s == 17) by (bit_vector)
            requires
                s < 64,
        ;
    }
    lemma_popcount_within(0x30103, set![0int, 1, 8, 16, 17]);
    assert(0x30103u64 & (1u64 << 0u64) != 0 && 0x30103u64 & (1u64 << 1u64) != 0 && 0x30103u64 & (1u64 << 16u64) != 0) by (bit_vector);
    lemma_bounding_box_from_cells(puzzle_pieces()[2], 0, 0, 0, 0);
}

proof fn lemma_l_piece()
    ensures
        puzzle_pieces()[3].is_bounding_box(),
        popcount(puzzle_pieces()[3].shape) <= 5,
{
    assert forall|i: int| #[trigger] bit_set(0x1010103, i) implies set![0int, 1, 8, 16, 24].contains(i) by {
        let s = i as u64;
        assert(0x1010103u64 & (1u64 << s) != 0 ==> s == 0 || s == 1 || s == 8 || s == 16 || s == 24) by (bit_vector)
            requires
                s < 64,
        ;
    }
    lemma_popcount_within(0x1010103, set![0int, 1, 8, 16, 24]);
    assert(0x1010103u64 & (1u64 << 0u64) != 0 && 0x1010103u64 & (1u64 << 1u64) != 0 && 0x1010103u64 & (1u64 << 24u64) != 0) by (bit_vector);
    lemma_bounding_box_from_cells(puzzle_pieces()[3], 0, 0, 0, 0);
}

proof fn lemma_z_piece()
    ensures
        puzzle_pieces()[4].is_bounding_box(),
        popcount(puzzle_pieces()[4].shape) <= 5,
{
    assert forall|i: int| #[trigger] bit_set(0x2030101, i) implies set![0int, 8, 16, 17, 25].contains(i) by {
        let s = i as u64;
        assert(0x2030101u64 & (1u64 << s) != 0 ==> s == 0 || s == 8 || s == 16 || s == 17 || s == 25) by (bit_vector)
            requires
                s < 64,
        ;
    }
    lemma_popcount_within(0x2030101, set![0int, 8, 16, 17, 25]);
    assert(0x2030101u64 & (1u64 << 0u64) != 0 && 0x2030101u64 & (1u64 << 17u64) != 0 && 0x2030101u64 & (1u64 << 25u64) != 0) by (bit_vector);
    lemma_bounding_box_from_cells(puzzle_pieces()[4], 0, 2, 0, 1);
}

proof fn lemma_block_piece()
    ensures
        puzzle_pieces()[5].is_bounding_box(),
        popcount(puzzle_pieces()[5].shape) <= 6,
{
    assert forall|i: int| #[trigger] bit_set(0x30303, i) implies set![0int, 1, 8, 9, 16, 17].contains(i) by {
        let s = i as u64;
        assert(0x30303u64 & (1u64 << s) != 0 ==> s == 0 || s == 1 || s == 8 || s == 9 || s == 16 || s == 17) by (bit_vector)
            requires
                s < 64,
        ;
    }
    lemma_popcount_within(0x30303, set![0int, 1, 8, 9, 16, 17]);
    assert(0x30303u64 & (1u64 << 0u64) != 0 && 0x30303u64 & (1u64 << 1u64) != 0 && 0x30303u64 & (1u64 << 16u64) != 0) by (bit_vector);
    lemma_bounding_box_from_cells(puzzle_pieces()[5], 0, 0, 0, 0);
}

proof fn lemma_s_piece()
    ensures
        puzzle_pieces()[6].is_bounding_box(),
        popcount(puzzle_pieces()[6].shape) <= 5,
{
    assert forall|i: int| #[trigger] bit_set(0x60203, i) implies set![0int, 1, 9, 17, 18].contains(i) by {
        let s = i as u64;
        assert(0x60203u64 & (1u64 << s) != 0 ==> s == 0 || s == 1 || s == 9 || s == 17 || s == 18) by (bit_vector)
            requires
                s < 64,
        ;
    }
    lemma_popcount_within(0x60203, set![0int, 1, 9, 17, 18]);
    assert(0x60203u64 & (1u64 << 0u64) != 0 && 0x60203u64 & (1u64 << 17u64) != 0 && 0x60203u64 & (1u64 << 18u64) != 0) by (bit_vector);
    lemma_bounding_box_from_cells(puzzle_pieces()[6], 0, 2, 0, 1);
}

proof fn lemma_y_piece()
    ensures
        puzzle_pieces()[7].is_bounding_box(),
        popcount(puzzle_pieces()[7].shape) <= 5,
{
    assert forall|i: int| #[trigger] bit_set(0x1030101, i) implies set![0int, 8, 16, 17, 24].contains(i) by {
        let s = i as u64;
        assert(0x1030101u64 & (1u64 << s) != 0 ==> s == 0 || s == 8 || s == 16 || s == 17 || s == 24) by (bit_vector)
            requires
                s < 64,
        ;
    }
    lemma_popcount_within(0x1030101, set![0int, 8, 16, 17, 24]);
    assert(0x1030101u64 & (1u64 << 0u64) != 0 && 0x1030101u64 & (1u64 << 17u64) != 0 && 0x1030101u64 & (1u64 << 24u64) != 0) by (bit_vector);
    lemma_bounding_box_from_cells(puzzle_pieces()[7], 0, 2, 0, 0);
}

/// Each of the eight pieces is given in its bounding box and has no more
/// cells than `puzzle_cells` says.
pub proof fn lemma_puzzle_pieces()
    ensures
        forall|k: int| 0 <= k < 8 ==> (#[trigger] puzzle_pieces()[k]).is_bounding_box(),
        forall|k: int|
            0 <= k < 8 ==> popcount((#[trigger] puzzle_pieces()[k]).shape) <= puzzle_cells()[k],
{
    lemma_p_piece();
    lemma_corner_piece();
    lemma_u_piece();
    lemma_l_piece();
    lemma_z_piece();
    lemma_block_piece();
    lemma_s_piece();
    lemma_y_piece();
}

/// The border takes 21 of the 64 cells at most.
pub proof fn lemma_border_cells()
    ensures
        popcount(PUZZLE_BORDER) <= 21,
{
    let positions = set![0int, 1, 2, 3, 4, 5, 6, 7, 8, 9, 10, 11, 12, 16, 24, 32, 40, 48, 49, 56, 57];
    assert forall|i: int| #[trigger] bit_set(PUZZLE_BORDER, i) implies positions.contains(i) by {
        let s = i as u64;
        assert(0x0303010101011FFFu64 & (1u64 << s) != 0 ==> s == 0 || s == 1 || s == 2 || s == 3 || s == 4 || s == 5 || s == 6 || s == 7 || s == 8 || s == 9 || s == 10 || s == 11 || s == 12 || s == 16 || s == 24 || s == 32 || s == 40 || s == 48 || s == 49 || s == 56 || s == 57) by (bit_vector)
            requires
                s < 64,
        ;
    }
    lemma_popcount_within(PUZZLE_BORDER, positions);
}

/// The eight pieces of the puzzle, in slot order.
pub fn create_pieces_lookup() -> (pieces: [Piece; 8])
    ensures
        pieces@ == puzzle_pieces(),
        forall|k: int| 0 <= k < 8 ==> (#[trigger] pieces[k]).is_bounding_box(),
        forall|k: int| 0 <= k < 8 ==> (#[trigger] pieces[k]).placeable_either_way(),
{
    let pieces: [Piece; 8] = [
        Piece::new(0x10303, 2, 3),
        Piece::new(0x10107, 3, 3),
        Piece::new(0x30103, 2, 3),
        Piece::new(0x1010103, 2, 4),
        Piece::new(0x2030101, 2, 4),
        Piece::new(0x30303, 2, 3),
        Piece::new(0x60203, 3, 3),
        Piece::new(0x1030101, 2, 4),
    ];
    proof {
        assert(pieces@ =~= puzzle_pieces());
        lemma_puzzle_pieces();
        assert forall|k: int| 0 <= k < 8 implies (#[trigger] pieces[k]).is_bounding_box()
            && pieces[k].placeable_either_way() by {
            assert(pieces[k] == puzzle_pieces()[k]);
        }
    }
    pieces
}

/// The variant lists of the eight pieces of the puzzle, slot by slot.
pub open spec fn puzzle_slots() -> Seq<Seq<Piece>> {
    Seq::new(8, |k: int| puzzle_pieces()[k].variants())
}

/// The eight pieces have 41 cells together.
proof fn lemma_puzzle_cells_total()
    ensures
        total(puzzle_cells()) == 41,
{
    let c = puzzle_cells();
    assert(c.drop_last() =~= seq![5nat, 5, 5, 5, 5, 6, 5]);
    assert(c.drop_last().drop_last() =~= seq![5nat, 5, 5, 5, 5, 6]);
    assert(c.drop_last().drop_last().drop_last() =~= seq![5nat, 5, 5, 5, 5]);
    assert(seq![5nat, 5, 5, 5, 5].drop_last() =~= seq![5nat, 5, 5, 5]);
    assert(seq![5nat, 5, 5, 5].drop_last() =~= seq![5nat, 5, 5]);
    assert(seq![5nat, 5, 5].drop_last() =~= seq![5nat, 5]);
    assert(seq![5nat, 5].drop_last() =~= seq![5nat]);
    assert(seq![5nat].drop_last() =~= Seq::<nat>::empty());
    assert(total(Seq::<nat>::empty()) == 0);
    assert(total(seq![5nat]) == 5);
    assert(total(seq![5nat, 5]) == 10);
    assert(total(seq![5nat, 5, 5]) == 15);
    assert(total(seq![5nat, 5, 5, 5]) == 20);
    assert(total(seq![5nat, 5, 5, 5, 5]) == 25);
    assert(total(seq![5nat, 5, 5, 5, 5, 6]) == 31);
    assert(total(seq![5nat, 5, 5, 5, 5, 6, 5]) == 36);
}

/// Every variant of the eight pieces can be placed and has the cells of
/// its piece; no piece has more than eight variants, so that a search of
/// the puzzle tries fewer than 2 to the 73rd placements.
pub proof fn lemma_puzzle_slots()
    ensures
        all_placeable(puzzle_slots(), 0),
        at_most_eight_variants(puzzle_slots(), 0),
        cells_at_most(puzzle_slots(), puzzle_cells()),
        forall|board: u64| #[trigger] attempts(board, puzzle_slots(), 0) < 0x200_0000_0000_0000_0000,
{
    let slots = puzzle_slots();
    lemma_puzzle_pieces();
    assert forall|k: int| 0 <= k < 8 implies (#[trigger] slots[k]).len() <= 8 by {
        puzzle_pieces()[k].lemma_variants_are_orientations();
    }
    assert forall|board: u64| #[trigger] attempts(board, slots, 0) < 0x200_0000_0000_0000_0000 by {
        lemma_attempts_fit_counter(board, slots, 0);
    }
    assert forall|k: int, v: int| 0 <= k < 8 && 0 <= v < slots[k].len() implies (
    #[trigger] slots[k][v]).placeable() && popcount(slots[k][v].shape) <= puzzle_cells()[k] by {
        let piece = puzzle_pieces()[k];
        assert(piece.is_bounding_box());
        piece.lemma_variants_well_formed();
        piece.lemma_variants_keep_cell_count();
        assert(piece.box_of(piece.variants()[v]));
        assert(popcount(piece.variants()[v].shape) == popcount(piece.shape));
    }
}

/// Every solution of the puzzle leaves at least two cells of the board
/// free: the border takes 21 cells at most and the pieces 41.
pub proof fn lemma_two_cells_stay_free(partial: Seq<u64>, j: int)
    requires
        partial.len() == 8,
        0 <= j < solutions(PUZZLE_BORDER, puzzle_slots(), 0, partial).len(),
    ensures
        free_cells(
            PUZZLE_BORDER | union_of(solutions(PUZZLE_BORDER, puzzle_slots(), 0, partial)[j]),
        ) >= 2,
{
    lemma_puzzle_slots();
    lemma_puzzle_cells_total();
    lemma_border_cells();
    lemma_solution_cells(PUZZLE_BORDER, puzzle_slots(), partial, puzzle_cells(), j);
}

/// Where the cell of day `day` (counted from 0) lies: the days run down
/// from position 47, seven to a row of eight.
pub open spec fn day_position(day: int) -> int {
    47 - day - day / 7
}

/// Where the cell of month `month` (counted from 0) lies: the months run
/// down from position 63, six to a row of eight.
pub open spec fn month_position(month: int) -> int {
    63 - month - (month / 6) * 2
}

/// The number of days that month `month` (counted from 0) can have.
pub open spec fn days_in_month(month: int) -> int {
    if month == 1 {
        29
    } else if month == 0 || month == 2 || month == 4 || month == 6 || month == 7 || month == 9
        || month == 11 {
        31
    } else {
        30
    }
}

/// The masks of the 31 day cells: entry `i` has the one bit of day `i + 1`.
pub fn create_day_lookup() -> (day_lookup: [u64; 31])
    ensures
        forall|i: int| 0 <= i < 31 ==> #[trigger] day_lookup[i] == single_bit(day_position(i)),
{
    let mut day_lookup: [u64; 31] = [0; 31];
    for i in 0..31u64
        invariant
            forall|k: int| 0 <= k < i ==> #[trigger] day_lookup[k] == single_bit(day_position(k)),
    {
        day_lookup[i as usize] = 1u64 << (48 - (i + 1) - (i / 7));
    }
    day_lookup
}

/// The masks of the 12 month cells: entry `i` has the one bit of month `i + 1`.
pub fn create_month_lookup() -> (month_lookup: [u64; 12])
    ensures
        forall|i: int|
            0 <= i < 12 ==> #[trigger] month_lookup[i] == single_bit(month_position(i)),
{
    let mut month_lookup: [u64; 12] = [0; 12];
    for i in 0..12u64
        invariant
            forall|k: int|
                0 <= k < i ==> #[trigger] month_lookup[k] == single_bit(month_position(k)),
    {
        month_lookup[i as usize] = 1u64 << (63 - i - (i / 6 * 2));
    }
    month_lookup
}

/// Whether the calendar has day `day` in month `month`, both counted from 0.
pub fn is_valid_date(month: usize, day: usize) -> (valid: bool)
    ensures
        valid == (day < days_in_month(month as int)),
{
    if month == 1 {
        day < 29
    } else if month == 0 || month == 2 || month == 4 || month == 6 || month == 7 || month == 9
        || month == 11 {
        day < 31
    } else {
        day < 30
    }
}

/// The cells that the eight placements of a solution cover together.
pub fn covered_cells(solution: &[u64; 8]) -> (bitmap: u64)
    ensures
        bitmap == union_of(solution@),
{
    let mut bitmap: u64 = 0;
    for k in 0..8usize
        invariant
            bitmap == union_of(solution@.take(k as int)),
    {
        proof {
            assert(solution@.take(k + 1).drop_last() =~= solution@.take(k as int));
        }
        bitmap |= solution[k];
    }
    proof {
        assert(solution@.take(8) =~= solution@);
    }
    bitmap
}

/// Whether a solution leaves the cells of the given month and day uncovered.
pub fn fits_date(solution: &[u64; 8], month_mask: u64, day_mask: u64) -> (fits: bool)
    ensures
        fits == (union_of(solution@) & month_mask == 0 && union_of(solution@) & day_mask == 0),
{
    let bitmap = covered_cells(solution);
    (bitmap & month_mask) == 0 && (bitmap & day_mask) == 0
}

} // verus!
