use crate::bits::{
    bit_set, cells_of, lemma_cells_of_bounded, lemma_popcount_shift, lemma_popcount_union,
    lemma_popcount_union_of, popcount, total, union_of,
};
use crate::piece::Piece;
use crate::search::{
    all_placeable, attempts, attempts_over, candidates, placed, row_candidates, shift_of,
    slot_candidates, solutions, solutions_over, variant_candidates,
};
use vstd::prelude::*;

verus! {

/// From slot `index` on, no mask of `solution` touches the board or another of these masks.
pub open spec fn clear_from(board: u64, solution: Seq<u64>, index: int) -> bool {
    &&& forall|k: int| index <= k < 8 ==> #[trigger] solution[k] & board == 0
    &&& forall|a: int, b: int|
        index <= a < 8 && index <= b < 8 && a != b ==> #[trigger] solution[a] & #[trigger] solution[b]
            == 0
}

/// `solution` completes `partial` from slot `index` on with one placement
/// of each remaining slot, none touching the board or another.
pub open spec fn completes(
    board: u64,
    slots: Seq<Seq<Piece>>,
    index: int,
    partial: Seq<u64>,
    solution: Seq<u64>,
) -> bool {
    &&& solution.len() == 8
    &&& forall|k: int| 0 <= k < index ==> solution[k] == partial[k]
    &&& forall|k: int| index <= k < 8 ==> candidates(slots[k]).contains(#[trigger] solution[k])
    &&& clear_from(board, solution, index)
}

proof fn lemma_clear_of_union(x: u64, board: u64, mask: u64)
    ensures
        (x & (board | mask) == 0) <==> (x & board == 0 && x & mask == 0 && mask & x == 0),
{
    assert((x & (board | mask) == 0) <==> (x & board == 0 && x & mask == 0 && mask & x == 0))
        by (bit_vector);
}

/// Every solution found completes `partial`.
pub proof fn lemma_solutions_complete_partial(
    board: u64,
    slots: Seq<Seq<Piece>>,
    index: int,
    partial: Seq<u64>,
    j: int,
)
    requires
        0 <= index <= 8,
        partial.len() == 8,
        0 <= j < solutions(board, slots, index, partial).len(),
    ensures
        completes(board, slots, index, partial, solutions(board, slots, index, partial)[j]),
    decreases 8 - index, 1int, 0nat,
{
    if index < 8 {
        lemma_solutions_over_complete_partial(
            board,
            slots,
            index,
            partial,
            candidates(slots[index]),
            j,
        );
    }
}

proof fn lemma_solutions_over_complete_partial(
    board: u64,
    slots: Seq<Seq<Piece>>,
    index: int,
    partial: Seq<u64>,
    masks: Seq<u64>,
    j: int,
)
    requires
        0 <= index < 8,
        partial.len() == 8,
        0 <= j < solutions_over(board, slots, index, partial, masks).len(),
    ensures
        ({
            let s = solutions_over(board, slots, index, partial, masks)[j];
            &&& s.len() == 8
            &&& forall|k: int| 0 <= k < index ==> s[k] == partial[k]
            &&& masks.contains(s[index])
            &&& forall|k: int| index < k < 8 ==> candidates(slots[k]).contains(#[trigger] s[k])
            &&& clear_from(board, s, index)
        }),
    decreases 8 - index, 0int, masks.len(),
{
    let found = solutions_over(board, slots, index, partial, masks.drop_last());
    let mask = masks.last();
    let s = solutions_over(board, slots, index, partial, masks)[j];
    if j < found.len() {
        lemma_solutions_over_complete_partial(board, slots, index, partial, masks.drop_last(), j);
        let m = choose|m: int| 0 <= m < masks.drop_last().len() && masks.drop_last()[m] == s[index];
        assert(masks[m] == s[index]);
    } else {
        let next = partial.update(index, mask);
        lemma_solutions_complete_partial(board | mask, slots, index + 1, next, j - found.len());
        assert(s == solutions(board | mask, slots, index + 1, next)[j - found.len()]);
        assert(s[index] == mask);
        assert(masks[masks.len() - 1] == mask);
        assert forall|k: int| index <= k < 8 implies #[trigger] s[k] & board == 0 by {
            if k > index {
                assert(s[k] & (board | mask) == 0);
                lemma_clear_of_union(s[k], board, mask);
            } else {
                assert(mask & board == 0) by (bit_vector)
                    requires
                        board & mask == 0,
                ;
            }
        }
        assert forall|a: int, b: int| index <= a < 8 && index <= b < 8 && a != b implies #[trigger] s[a]
            & #[trigger] s[b] == 0 by {
            if a == index {
                assert(s[b] & (board | mask) == 0);
                lemma_clear_of_union(s[b], board, mask);
            } else if b == index {
                assert(s[a] & (board | mask) == 0);
                lemma_clear_of_union(s[a], board, mask);
            }
        }
    }
}

/// Every completion of `partial` is among the solutions found.
pub proof fn lemma_solutions_find_all(
    board: u64,
    slots: Seq<Seq<Piece>>,
    index: int,
    partial: Seq<u64>,
    solution: Seq<u64>,
)
    requires
        0 <= index <= 8,
        partial.len() == 8,
        completes(board, slots, index, partial, solution),
    ensures
        solutions(board, slots, index, partial).contains(solution),
    decreases 8 - index, 1int, 0nat,
{
    if index >= 8 {
        assert(solution =~= partial);
        assert(solutions(board, slots, index, partial)[0] == solution);
    } else {
        lemma_solutions_over_find_all(
            board,
            slots,
            index,
            partial,
            candidates(slots[index]),
            solution,
        );
    }
}

proof fn lemma_solutions_over_find_all(
    board: u64,
    slots: Seq<Seq<Piece>>,
    index: int,
    partial: Seq<u64>,
    masks: Seq<u64>,
    solution: Seq<u64>,
)
    requires
        0 <= index < 8,
        partial.len() == 8,
        solution.len() == 8,
        forall|k: int| 0 <= k < index ==> solution[k] == partial[k],
        masks.contains(solution[index]),
        forall|k: int| index < k < 8 ==> candidates(slots[k]).contains(#[trigger] solution[k]),
        clear_from(board, solution, index),
    ensures
        solutions_over(board, slots, index, partial, masks).contains(solution),
    decreases 8 - index, 0int, masks.len(),
{
    let found = solutions_over(board, slots, index, partial, masks.drop_last());
    let all = solutions_over(board, slots, index, partial, masks);
    let mask = masks.last();
    let m = choose|m: int| 0 <= m < masks.len() && masks[m] == solution[index];
    if mask == solution[index] {
        let next = partial.update(index, mask);
        assert(solution[index] & board == 0);
        assert(board & mask == 0) by (bit_vector)
            requires
                mask & board == 0,
        ;
        assert(clear_from(board | mask, solution, index + 1)) by {
            assert forall|k: int| index + 1 <= k < 8 implies #[trigger] solution[k] & (board | mask)
                == 0 by {
                assert(solution[k] & board == 0);
                assert(solution[k] & solution[index] == 0);
                assert(solution[index] & solution[k] == 0);
                lemma_clear_of_union(solution[k], board, mask);
            }
        }
        lemma_solutions_find_all(board | mask, slots, index + 1, next, solution);
        let deeper = solutions(board | mask, slots, index + 1, next);
        let j = choose|j: int| 0 <= j < deeper.len() && deeper[j] == solution;
        assert(all[found.len() + j] == solution);
    } else {
        assert(masks.drop_last()[m] == solution[index]);
        lemma_solutions_over_find_all(board, slots, index, partial, masks.drop_last(), solution);
        let j = choose|j: int| 0 <= j < found.len() && found[j] == solution;
        assert(all[j] == solution);
    }
}

/// The number of placements rejected from slot `index` on because they touch an occupied cell.
pub open spec fn rejections(board: u64, slots: Seq<Seq<Piece>>, index: int) -> nat
    decreases 8 - index, 1int, 0nat,
{
    if index >= 8 {
        0
    } else {
        rejections_over(board, slots, index, candidates(slots[index]))
    }
}

/// The number of placements rejected while the placements `masks` are tried for slot `index`.
pub open spec fn rejections_over(
    board: u64,
    slots: Seq<Seq<Piece>>,
    index: int,
    masks: Seq<u64>,
) -> nat
    decreases 8 - index, 0int, masks.len(),
{
    if index >= 8 || masks.len() == 0 {
        0
    } else {
        let before = rejections_over(board, slots, index, masks.drop_last());
        let mask = masks.last();
        if board & mask != 0 {
            before + 1
        } else {
            before + rejections(board | mask, slots, index + 1)
        }
    }
}

/// While a slot is still open, every solution and every rejection is an attempt of its own.
pub proof fn lemma_attempts_cover_solutions_and_rejections(
    board: u64,
    slots: Seq<Seq<Piece>>,
    index: int,
    partial: Seq<u64>,
)
    requires
        0 <= index < 8,
    ensures
        attempts(board, slots, index) >= solutions(board, slots, index, partial).len() + rejections(
            board,
            slots,
            index,
        ),
    decreases 8 - index, 1int, 0nat,
{
    lemma_attempts_over_cover(board, slots, index, partial, candidates(slots[index]));
}

proof fn lemma_attempts_over_cover(
    board: u64,
    slots: Seq<Seq<Piece>>,
    index: int,
    partial: Seq<u64>,
    masks: Seq<u64>,
)
    requires
        0 <= index < 8,
    ensures
        attempts_over(board, slots, index, masks) >= solutions_over(
            board,
            slots,
            index,
            partial,
            masks,
        ).len() + rejections_over(board, slots, index, masks),
    decreases 8 - index, 0int, masks.len(),
{
    if masks.len() > 0 {
        lemma_attempts_over_cover(board, slots, index, partial, masks.drop_last());
        let mask = masks.last();
        let next = partial.update(index, mask);
        if board & mask == 0 {
            if index + 1 < 8 {
                lemma_attempts_cover_solutions_and_rejections(board | mask, slots, index + 1, next);
            } else {
                assert(solutions(board | mask, slots, index + 1, next).len() == 1);
                assert(attempts(board | mask, slots, index + 1) == 0);
                assert(rejections(board | mask, slots, index + 1) == 0);
            }
        }
    }
}

/// Once a placement has been rejected, more placements have been tried than solutions found.
pub proof fn lemma_attempts_exceed_solutions(
    board: u64,
    slots: Seq<Seq<Piece>>,
    index: int,
    partial: Seq<u64>,
)
    requires
        0 <= index <= 8,
        rejections(board, slots, index) > 0,
    ensures
        attempts(board, slots, index) > solutions(board, slots, index, partial).len(),
{
    if index < 8 {
        lemma_attempts_cover_solutions_and_rejections(board, slots, index, partial);
    }
}

/// A bound on the placements tried while `levels` slots are open and no
/// slot has more than eight variants: at most 512 placements per slot,
/// each followed at most by a full search of the slots behind it.
pub open spec fn attempts_bound(levels: nat) -> nat
    decreases levels,
{
    if levels == 0 {
        0
    } else {
        512 * (1 + attempts_bound((levels - 1) as nat))
    }
}

/// No slot from `index` on has more than eight variants.
pub open spec fn at_most_eight_variants(slots: Seq<Seq<Piece>>, index: int) -> bool {
    forall|k: int| index <= k < 8 ==> (#[trigger] slots[k]).len() <= 8
}

proof fn lemma_variant_candidates_len(p: Piece, ny: int)
    requires
        0 <= ny,
    ensures
        variant_candidates(p, ny).len() <= 8 * ny,
    decreases ny,
{
    if ny > 0 {
        lemma_variant_candidates_len(p, ny - 1);
        assert(row_candidates(p, ny - 1, p.column_offsets()).len() <= 8);
    }
}

proof fn lemma_slot_candidates_len(variants: Seq<Piece>, nv: int)
    requires
        0 <= nv,
    ensures
        slot_candidates(variants, nv).len() <= 64 * nv,
    decreases nv,
{
    if nv > 0 {
        lemma_slot_candidates_len(variants, nv - 1);
        lemma_variant_candidates_len(variants[nv - 1], variants[nv - 1].row_offsets());
    }
}

/// A variant has at most 64 placements.
pub proof fn lemma_candidates_len(variants: Seq<Piece>)
    ensures
        candidates(variants).len() <= 64 * variants.len(),
{
    lemma_slot_candidates_len(variants, variants.len() as int);
}

/// With at most eight variants in every open slot, the number of
/// placements tried stays below the bound for the open slots.
pub proof fn lemma_attempts_bounded(board: u64, slots: Seq<Seq<Piece>>, index: int)
    requires
        0 <= index <= 8,
        at_most_eight_variants(slots, index),
    ensures
        attempts(board, slots, index) <= attempts_bound((8 - index) as nat),
    decreases 8 - index, 1int, 0nat,
{
    if index < 8 {
        let masks = candidates(slots[index]);
        let each = 1 + attempts_bound((7 - index) as nat);
        lemma_attempts_over_bounded(board, slots, index, masks);
        lemma_candidates_len(slots[index]);
        assert(masks.len() <= 512);
        assert(masks.len() * each <= 512 * each) by (nonlinear_arith)
            requires
                masks.len() <= 512,
                each >= 0,
        ;
    }
}

proof fn lemma_attempts_over_bounded(
    board: u64,
    slots: Seq<Seq<Piece>>,
    index: int,
    masks: Seq<u64>,
)
    requires
        0 <= index < 8,
        at_most_eight_variants(slots, index),
    ensures
        attempts_over(board, slots, index, masks) <= masks.len() * (1 + attempts_bound(
            (7 - index) as nat,
        )),
    decreases 8 - index, 0int, masks.len(),
{
    let each = 1 + attempts_bound((7 - index) as nat);
    if masks.len() > 0 {
        let mask = masks.last();
        lemma_attempts_over_bounded(board, slots, index, masks.drop_last());
        lemma_attempts_bounded(board | mask, slots, index + 1);
        assert((masks.len() - 1) * each + each == masks.len() * each) by (nonlinear_arith);
    } else {
        assert(0 * each == 0);
    }
}

/// The bound for up to eight open slots stays below 2 to the 73rd, far
/// inside a 128-bit counter.
pub proof fn lemma_attempts_bound_fits(levels: nat)
    requires
        levels <= 8,
    ensures
        attempts_bound(levels) < 0x200_0000_0000_0000_0000,
{
    reveal_with_fuel(attempts_bound, 9);
}

/// With at most eight variants in every open slot, the placements tried
/// number less than 2 to the 73rd.
pub proof fn lemma_attempts_fit_counter(board: u64, slots: Seq<Seq<Piece>>, index: int)
    requires
        0 <= index <= 8,
        at_most_eight_variants(slots, index),
    ensures
        attempts(board, slots, index) < 0x200_0000_0000_0000_0000,
{
    lemma_attempts_bounded(board, slots, index);
    lemma_attempts_bound_fits((8 - index) as nat);
}

/// `mask` is the shape of one of `variants` at one of that variant's offsets.
pub open spec fn is_placement_of(variants: Seq<Piece>, mask: u64) -> bool {
    exists|v: int, x: int, y: int|
        0 <= v < variants.len() && 0 <= x < variants[v].column_offsets() && 0 <= y
            < variants[v].row_offsets() && mask == #[trigger] placed(variants[v], x, y)
}

proof fn lemma_joined_contains(a: Seq<u64>, b: Seq<u64>, mask: u64)
    ensures
        (a + b).contains(mask) <==> a.contains(mask) || b.contains(mask),
{
    if a.contains(mask) {
        let i = choose|i: int| 0 <= i < a.len() && a[i] == mask;
        assert((a + b)[i] == mask);
    }
    if b.contains(mask) {
        let i = choose|i: int| 0 <= i < b.len() && b[i] == mask;
        assert((a + b)[a.len() + i] == mask);
    }
    if (a + b).contains(mask) {
        let i = choose|i: int| 0 <= i < (a + b).len() && (a + b)[i] == mask;
        if i < a.len() {
            assert(a[i] == mask);
        } else {
            assert(b[i - a.len()] == mask);
        }
    }
}

proof fn lemma_variant_candidates_contain(p: Piece, ny: int, mask: u64)
    requires
        0 <= ny,
    ensures
        variant_candidates(p, ny).contains(mask) <==> exists|x: int, y: int|
            0 <= x < p.column_offsets() && 0 <= y < ny && mask == #[trigger] placed(p, x, y),
    decreases ny,
{
    if ny > 0 {
        let front = variant_candidates(p, ny - 1);
        let row = row_candidates(p, ny - 1, p.column_offsets());
        lemma_variant_candidates_contain(p, ny - 1, mask);
        lemma_joined_contains(front, row, mask);
        if row.contains(mask) {
            let x = choose|x: int| 0 <= x < row.len() && row[x] == mask;
            assert(mask == placed(p, x, ny - 1));
        }
        if exists|x: int, y: int|
            0 <= x < p.column_offsets() && 0 <= y < ny && mask == #[trigger] placed(p, x, y) {
            let (x, y) = choose|x: int, y: int|
                0 <= x < p.column_offsets() && 0 <= y < ny && mask == #[trigger] placed(p, x, y);
            if y == ny - 1 {
                assert(row[x] == mask);
            }
        }
    }
}

proof fn lemma_slot_candidates_contain(variants: Seq<Piece>, nv: int, mask: u64)
    requires
        0 <= nv <= variants.len(),
    ensures
        slot_candidates(variants, nv).contains(mask) <==> exists|v: int, x: int, y: int|
            0 <= v < nv && 0 <= x < variants[v].column_offsets() && 0 <= y
                < variants[v].row_offsets() && mask == #[trigger] placed(variants[v], x, y),
    decreases nv,
{
    if nv > 0 {
        let p = variants[nv - 1];
        let front = slot_candidates(variants, nv - 1);
        let last = variant_candidates(p, p.row_offsets());
        lemma_slot_candidates_contain(variants, nv - 1, mask);
        lemma_variant_candidates_contain(p, p.row_offsets(), mask);
        lemma_joined_contains(front, last, mask);
        if last.contains(mask) {
            let (x, y) = choose|x: int, y: int|
                0 <= x < p.column_offsets() && 0 <= y < p.row_offsets() && mask
                    == #[trigger] placed(p, x, y);
            assert(mask == placed(variants[nv - 1], x, y));
        }
        if exists|v: int, x: int, y: int|
            0 <= v < nv && 0 <= x < variants[v].column_offsets() && 0 <= y
                < variants[v].row_offsets() && mask == #[trigger] placed(variants[v], x, y) {
            let (v, x, y) = choose|v: int, x: int, y: int|
                0 <= v < nv && 0 <= x < variants[v].column_offsets() && 0 <= y
                    < variants[v].row_offsets() && mask == #[trigger] placed(variants[v], x, y);
            if v == nv - 1 {
                assert(mask == placed(p, x, y));
            }
        }
    }
}

/// The placements tried for a slot are the shapes of its variants at each of their offsets.
pub proof fn lemma_candidates_are_placements(variants: Seq<Piece>, mask: u64)
    ensures
        candidates(variants).contains(mask) <==> is_placement_of(variants, mask),
{
    lemma_slot_candidates_contain(variants, variants.len() as int, mask);
}

/// The solutions found are the completions of `partial`, all of them and nothing else.
pub proof fn lemma_solutions_are_the_completions(
    board: u64,
    slots: Seq<Seq<Piece>>,
    index: int,
    partial: Seq<u64>,
    solution: Seq<u64>,
)
    requires
        0 <= index <= 8,
        partial.len() == 8,
    ensures
        solutions(board, slots, index, partial).contains(solution) <==> completes(
            board,
            slots,
            index,
            partial,
            solution,
        ),
{
    let found = solutions(board, slots, index, partial);
    if found.contains(solution) {
        let j = choose|j: int| 0 <= j < found.len() && found[j] == solution;
        lemma_solutions_complete_partial(board, slots, index, partial, j);
    }
    if completes(board, slots, index, partial, solution) {
        lemma_solutions_find_all(board, slots, index, partial, solution);
    }
}

/// Position `row * 8 + column` lies in that column and row.
proof fn lemma_cell_position(column: int, row: int)
    requires
        0 <= column < 8,
    ensures
        (row * 8 + column) % 8 == column,
        (row * 8 + column) / 8 == row,
{
}

/// Moving a piece to an offset moves each of its cells by the offset and
/// one more column and row.
proof fn lemma_moved_position(p: Piece, x: int, y: int, from: int)
    requires
        p.placeable(),
        0 <= x < p.column_offsets(),
        0 <= y < p.row_offsets(),
        0 <= from,
        from % 8 < p.width,
        from / 8 < p.height,
    ensures
        0 <= from + shift_of(x, y) < 64,
        (from + shift_of(x, y)) % 8 == from % 8 + x + 1,
        (from + shift_of(x, y)) / 8 == from / 8 + y + 1,
{
    let column = from % 8 + x + 1;
    let row = from / 8 + y + 1;
    assert(from + shift_of(x, y) == row * 8 + column);
    lemma_cell_position(column, row);
}

/// A well-formed piece that can be placed covers, at each of its offsets, the board
/// cells that lie one column and one row beyond the offset from its own
/// cells: none is lost, and none falls into column 0 or row 0.
pub proof fn lemma_placed_cells(p: Piece, x: int, y: int)
    requires
        p.well_formed(),
        p.placeable(),
        0 <= x < p.column_offsets(),
        0 <= y < p.row_offsets(),
    ensures
        forall|i: int| #[trigger]
            bit_set(placed(p, x, y), i) <==> 0 <= i < 64 && p.has_cell(
                i % 8 - (x + 1),
                i / 8 - (y + 1),
            ),
{
    let by = shift_of(x, y);
    let k: u64 = by as u64;
    let shape = p.shape;
    assert forall|i: int| #[trigger]
        bit_set(placed(p, x, y), i) <==> 0 <= i < 64 && p.has_cell(
            i % 8 - (x + 1),
            i / 8 - (y + 1),
        ) by {
        if 0 <= i < 64 {
            let s: u64 = i as u64;
            assert(((shape << k) & (1u64 << s) != 0) == (s >= k && shape & (1u64 << ((s - k) as u64))
                != 0)) by (bit_vector)
                requires
                    s < 64,
                    k < 64,
            ;
            let from = i - by;
            if i >= by && bit_set(shape, from) {
                lemma_moved_position(p, x, y, from);
            }
            if p.has_cell(i % 8 - (x + 1), i / 8 - (y + 1)) {
                let column = i % 8 - (x + 1);
                let row = i / 8 - (y + 1);
                lemma_cell_position(column, row);
                assert(row * 8 + column == from);
            }
        }
    }
}

/// A piece placed at one of its offsets has no more cells than the piece.
pub proof fn lemma_placed_cell_count(p: Piece, x: int, y: int)
    requires
        p.placeable(),
        0 <= x < p.column_offsets(),
        0 <= y < p.row_offsets(),
    ensures
        popcount(placed(p, x, y)) <= popcount(p.shape),
{
    lemma_popcount_shift(p.shape, shift_of(x, y));
}

/// No variant of slot `k` has more cells than `counts[k]`.
pub open spec fn cells_at_most(slots: Seq<Seq<Piece>>, counts: Seq<nat>) -> bool {
    forall|k: int, v: int|
        0 <= k < 8 && 0 <= v < slots[k].len() ==> popcount((#[trigger] slots[k][v]).shape)
            <= counts[k]
}

/// A solution covers, with the board, no more cells than the board has
/// and the variants of the eight slots can have together.
pub proof fn lemma_solution_cells(
    board: u64,
    slots: Seq<Seq<Piece>>,
    partial: Seq<u64>,
    counts: Seq<nat>,
    j: int,
)
    requires
        slots.len() == 8,
        partial.len() == 8,
        counts.len() == 8,
        all_placeable(slots, 0),
        cells_at_most(slots, counts),
        0 <= j < solutions(board, slots, 0, partial).len(),
    ensures
        popcount(board | union_of(solutions(board, slots, 0, partial)[j])) <= popcount(board)
            + total(counts),
{
    let solution = solutions(board, slots, 0, partial)[j];
    lemma_solutions_complete_partial(board, slots, 0, partial, j);
    assert forall|k: int| 0 <= k < 8 implies popcount(#[trigger] solution[k]) <= counts[k] by {
        assert(candidates(slots[k]).contains(solution[k]));
        lemma_candidates_are_placements(slots[k], solution[k]);
        let (v, x, y) = choose|v: int, x: int, y: int|
            0 <= v < slots[k].len() && 0 <= x < slots[k][v].column_offsets() && 0 <= y
                < slots[k][v].row_offsets() && solution[k] == #[trigger] placed(slots[k][v], x, y);
        assert(slots[k][v].placeable());
        lemma_placed_cell_count(slots[k][v], x, y);
    }
    lemma_cells_of_bounded(solution, counts);
    lemma_popcount_union_of(solution);
    lemma_popcount_union(board, union_of(solution));
}

} // verus!
