use vstd::prelude::*;
use vstd::relations::injective_on;
use vstd::set_lib::{
    lemma_int_range, lemma_len_subset, lemma_len_union, lemma_map_size, set_int_range,
};

verus! {

/// Whether bit `i` of `mask` is set. Positions outside `0..64` hold no bit.
pub open spec fn bit_set(mask: u64, i: int) -> bool {
    0 <= i < 64 && mask & (1u64 << (i as u64)) != 0
}

/// The mask whose set bits are exactly the positions below `n` at which `pred` holds.
pub open spec fn mask_below(pred: spec_fn(int) -> bool, n: nat) -> u64
    decreases n,
{
    if n == 0 {
        0
    } else {
        let rest = mask_below(pred, (n - 1) as nat);
        if pred(n - 1) {
            rest | (1u64 << ((n - 1) as u64))
        } else {
            rest
        }
    }
}

/// The 64-bit mask whose bit `i` is set exactly when `pred(i)` holds.
pub open spec fn mask_of(pred: spec_fn(int) -> bool) -> u64 {
    mask_below(pred, 64)
}

/// The empty mask has no bit set.
pub proof fn lemma_zero_has_no_bit(i: int)
    ensures
        !bit_set(0, i),
{
    if 0 <= i < 64 {
        let s: u64 = i as u64;
        assert(0u64 & (1u64 << s) == 0) by (bit_vector);
    }
}

/// Setting bit `j` sets that bit and leaves every other bit as it was.
pub proof fn lemma_set_one_bit(mask: u64, j: int, i: int)
    requires
        0 <= j < 64,
    ensures
        bit_set(mask | (1u64 << (j as u64)), i) == (bit_set(mask, i) || i == j),
{
    if 0 <= i < 64 {
        let s: u64 = i as u64;
        let t: u64 = j as u64;
        assert(((mask | (1u64 << t)) & (1u64 << s) != 0) == ((mask & (1u64 << s) != 0) || s == t))
            by (bit_vector)
            requires
                s < 64,
                t < 64,
        ;
    }
}

/// Bit `i` of `mask_below(pred, n)` is set exactly when `i < n` and `pred(i)`.
pub proof fn lemma_mask_below_bits(pred: spec_fn(int) -> bool, n: nat, i: int)
    requires
        n <= 64,
    ensures
        bit_set(mask_below(pred, n), i) == (0 <= i < n && pred(i)),
    decreases n,
{
    if n == 0 {
        lemma_zero_has_no_bit(i);
    } else {
        let rest = mask_below(pred, (n - 1) as nat);
        lemma_mask_below_bits(pred, (n - 1) as nat, i);
        if pred(n - 1) {
            lemma_set_one_bit(rest, n - 1, i);
        }
    }
}

/// Bit `i` of `mask_of(pred)` is set exactly when `i` is a position and `pred(i)`.
pub proof fn lemma_mask_of_bits(pred: spec_fn(int) -> bool)
    ensures
        forall|i: int| #[trigger] bit_set(mask_of(pred), i) == (0 <= i < 64 && pred(i)),
{
    assert forall|i: int| #[trigger] bit_set(mask_of(pred), i) == (0 <= i < 64 && pred(i)) by {
        lemma_mask_below_bits(pred, 64, i);
    }
}

/// The part of `mask` below position `n`.
spec fn low_part(mask: u64, n: nat) -> u64
    decreases n,
{
    if n == 0 {
        0
    } else {
        let rest = low_part(mask, (n - 1) as nat);
        rest | (mask & (1u64 << ((n - 1) as u64)))
    }
}

proof fn lemma_low_part_is_masking(mask: u64, n: nat)
    requires
        n <= 64,
    ensures
        n < 64 ==> low_part(mask, n) == mask & (((1u64 << (n as u64)) - 1) as u64),
        n == 64 ==> low_part(mask, n) == mask,
    decreases n,
{
    if n == 0 {
        assert(mask & (((1u64 << 0u64) - 1) as u64) == 0) by (bit_vector);
    } else {
        lemma_low_part_is_masking(mask, (n - 1) as nat);
        let k: u64 = (n - 1) as u64;
        let rest = low_part(mask, (n - 1) as nat);
        if n < 64 {
            assert((mask & (((1u64 << k) - 1) as u64)) | (mask & (1u64 << k)) == mask & (((1u64 << ((k + 1) as u64)) - 1) as u64))
                by (bit_vector)
                requires
                    k < 63,
            ;
        } else {
            assert((mask & (((1u64 << k) - 1) as u64)) | (mask & (1u64 << k)) == mask)
                by (bit_vector)
                requires
                    k == 63,
            ;
        }
    }
}

proof fn lemma_low_parts_agree(a: u64, b: u64, n: nat)
    requires
        n <= 64,
        forall|i: int| 0 <= i < n ==> bit_set(a, i) == bit_set(b, i),
    ensures
        low_part(a, n) == low_part(b, n),
    decreases n,
{
    if n > 0 {
        lemma_low_parts_agree(a, b, (n - 1) as nat);
        let k: u64 = (n - 1) as u64;
        assert(bit_set(a, n - 1) == bit_set(b, n - 1));
        assert((a & (1u64 << k) != 0) == (b & (1u64 << k) != 0) ==> a & (1u64 << k) == b & (1u64 << k))
            by (bit_vector)
            requires
                k < 64,
        ;
    }
}

/// Two masks that agree on every bit are the same mask.
pub proof fn lemma_masks_equal_by_bits(a: u64, b: u64)
    requires
        forall|i: int| 0 <= i < 64 ==> bit_set(a, i) == bit_set(b, i),
    ensures
        a == b,
{
    lemma_low_parts_agree(a, b, 64);
    lemma_low_part_is_masking(a, 64);
    lemma_low_part_is_masking(b, 64);
}

/// The positions at which `mask` has a bit set.
pub open spec fn set_bits(mask: u64) -> Set<int> {
    Set::new(|i: int| bit_set(mask, i))
}

/// The number of bits set in `mask`.
pub open spec fn popcount(mask: u64) -> nat {
    set_bits(mask).len()
}

/// A mask has finitely many set bits, at most 64.
pub proof fn lemma_set_bits_finite(mask: u64)
    ensures
        set_bits(mask).finite(),
        popcount(mask) <= 64,
{
    lemma_int_range(0, 64);
    assert(set_bits(mask).subset_of(set_int_range(0, 64)));
    lemma_len_subset(set_bits(mask), set_int_range(0, 64));
}

/// Two masks overlap exactly when some position is set in both.
pub proof fn lemma_overlap_by_bits(a: u64, b: u64)
    ensures
        (a & b == 0) <==> (forall|i: int| !(bit_set(a, i) && bit_set(b, i))),
{
    if a & b == 0 {
        assert forall|i: int| !(bit_set(a, i) && bit_set(b, i)) by {
            if 0 <= i < 64 {
                let s: u64 = i as u64;
                assert(!((a & (1u64 << s) != 0) && (b & (1u64 << s) != 0)))
                    by (bit_vector)
                    requires
                        a & b == 0,
                ;
            }
        }
    } else {
        let c: u64 = a & b;
        if forall|i: int| 0 <= i < 64 ==> !bit_set(c, i) {
            assert forall|i: int| 0 <= i < 64 implies bit_set(c, i) == bit_set(0u64, i) by {
                lemma_zero_has_no_bit(i);
            }
            lemma_masks_equal_by_bits(c, 0);
        }
        let i = choose|i: int| 0 <= i < 64 && bit_set(c, i);
        let s: u64 = i as u64;
        assert((a & (1u64 << s) != 0) && (b & (1u64 << s) != 0))
            by (bit_vector)
            requires
                (a & b) & (1u64 << s) != 0,
        ;
        assert(bit_set(a, i) && bit_set(b, i));
    }
}

/// A bit is set in the union of two masks exactly when it is set in one of them.
pub proof fn lemma_union_bits(a: u64, b: u64, i: int)
    ensures
        bit_set(a | b, i) == (bit_set(a, i) || bit_set(b, i)),
{
    if 0 <= i < 64 {
        let s: u64 = i as u64;
        assert(((a | b) & (1u64 << s) != 0) == ((a & (1u64 << s) != 0) || (b & (1u64 << s) != 0)))
            by (bit_vector);
    }
}

/// The mask with the one bit at `position` set.
pub open spec fn single_bit(position: int) -> u64 {
    1u64 << (position as u64)
}

/// `single_bit(position)` has the bit at `position` set and no other.
pub proof fn lemma_single_bit(position: int, i: int)
    requires
        0 <= position < 64,
    ensures
        bit_set(single_bit(position), i) == (i == position),
{
    if 0 <= i < 64 {
        let s: u64 = i as u64;
        let t: u64 = position as u64;
        assert(((1u64 << t) & (1u64 << s) != 0) == (s == t)) by (bit_vector)
            requires
                s < 64,
                t < 64,
        ;
    }
}

/// The cells that any of `masks` covers.
pub open spec fn union_of(masks: Seq<u64>) -> u64
    decreases masks.len(),
{
    if masks.len() == 0 {
        0
    } else {
        union_of(masks.drop_last()) | masks.last()
    }
}

/// A bit is set in the union exactly when it is set in one of the masks.
pub proof fn lemma_union_of_bits(masks: Seq<u64>, i: int)
    ensures
        bit_set(union_of(masks), i) <==> exists|k: int|
            0 <= k < masks.len() && bit_set(#[trigger] masks[k], i),
    decreases masks.len(),
{
    if masks.len() == 0 {
        lemma_zero_has_no_bit(i);
    } else {
        let front = masks.drop_last();
        lemma_union_of_bits(front, i);
        lemma_union_bits(union_of(front), masks.last(), i);
        if bit_set(union_of(masks), i) {
            if bit_set(masks.last(), i) {
                assert(bit_set(masks[masks.len() - 1], i));
            } else {
                let k = choose|k: int| 0 <= k < front.len() && bit_set(#[trigger] front[k], i);
                assert(bit_set(masks[k], i));
            }
        }
        if exists|k: int| 0 <= k < masks.len() && bit_set(#[trigger] masks[k], i) {
            let k = choose|k: int| 0 <= k < masks.len() && bit_set(#[trigger] masks[k], i);
            if k < front.len() {
                assert(bit_set(front[k], i));
            }
        }
    }
}

/// The union of two masks has at most as many bits as the two together.
pub proof fn lemma_popcount_union(a: u64, b: u64)
    ensures
        popcount(a | b) <= popcount(a) + popcount(b),
{
    lemma_set_bits_finite(a);
    lemma_set_bits_finite(b);
    assert(set_bits(a | b) =~= set_bits(a).union(set_bits(b))) by {
        assert forall|i: int| set_bits(a | b).contains(i) == set_bits(a).union(set_bits(b)).contains(
            i,
        ) by {
            lemma_union_bits(a, b, i);
        }
    }
    lemma_len_union(set_bits(a), set_bits(b));
}

/// A mask shifted to the left has at most as many bits as before.
pub proof fn lemma_popcount_shift(mask: u64, by: int)
    requires
        0 <= by < 64,
    ensures
        popcount(mask << (by as u64)) <= popcount(mask),
{
    let k: u64 = by as u64;
    let moved = set_bits(mask << k);
    let back = |i: int| i - by;
    lemma_set_bits_finite(mask << k);
    lemma_set_bits_finite(mask);
    assert forall|i: int| #[trigger] moved.contains(i) implies bit_set(mask, i - by) by {
        let s: u64 = i as u64;
        assert((mask << k) & (1u64 << s) != 0 ==> s >= k && mask & (1u64 << ((s - k) as u64)) != 0)
            by (bit_vector)
            requires
                s < 64,
                k < 64,
        ;
    }
    assert(injective_on(back, moved));
    lemma_map_size(moved, moved.map(back), back);
    assert(moved.map(back).subset_of(set_bits(mask))) by {
        assert forall|j: int| moved.map(back).contains(j) implies set_bits(mask).contains(j) by {
            let i = choose|i: int| moved.contains(i) && j == back(i);
            assert(bit_set(mask, i - by));
        }
    }
    lemma_len_subset(moved.map(back), set_bits(mask));
}

/// A mask whose set bits all lie in a set of positions has at most as
/// many bits as the set has positions.
pub proof fn lemma_popcount_within(mask: u64, positions: Set<int>)
    requires
        positions.finite(),
        forall|i: int| #[trigger] bit_set(mask, i) ==> positions.contains(i),
    ensures
        popcount(mask) <= positions.len(),
{
    assert(set_bits(mask).subset_of(positions));
    lemma_len_subset(set_bits(mask), positions);
}

/// The cells that the masks cover, each counted as often as it is covered.
pub open spec fn cells_of(masks: Seq<u64>) -> nat
    decreases masks.len(),
{
    if masks.len() == 0 {
        0
    } else {
        cells_of(masks.drop_last()) + popcount(masks.last())
    }
}

/// The union of masks covers at most as many cells as the masks have together.
pub proof fn lemma_popcount_union_of(masks: Seq<u64>)
    ensures
        popcount(union_of(masks)) <= cells_of(masks),
    decreases masks.len(),
{
    if masks.len() == 0 {
        assert(set_bits(0) =~= Set::<int>::empty()) by {
            assert forall|i: int| !set_bits(0).contains(i) by {
                lemma_zero_has_no_bit(i);
            }
        }
    } else {
        lemma_popcount_union_of(masks.drop_last());
        lemma_popcount_union(union_of(masks.drop_last()), masks.last());
    }
}

/// The number of cells that `mask` leaves free.
pub open spec fn free_cells(mask: u64) -> int {
    64 - popcount(mask)
}

/// The sum of the numbers in `counts`.
pub open spec fn total(counts: Seq<nat>) -> nat
    decreases counts.len(),
{
    if counts.len() == 0 {
        0
    } else {
        total(counts.drop_last()) + counts.last()
    }
}

/// Masks that have no more cells than `counts` says, one by one, have
/// no more than the total together.
pub proof fn lemma_cells_of_bounded(masks: Seq<u64>, counts: Seq<nat>)
    requires
        masks.len() == counts.len(),
        forall|k: int| 0 <= k < masks.len() ==> popcount(#[trigger] masks[k]) <= counts[k],
    ensures
        cells_of(masks) <= total(counts),
    decreases masks.len(),
{
    if masks.len() > 0 {
        assert forall|k: int| 0 <= k < masks.len() - 1 implies popcount(
            #[trigger] masks.drop_last()[k],
        ) <= counts.drop_last()[k] by {
            assert(popcount(masks[k]) <= counts[k]);
        }
        lemma_cells_of_bounded(masks.drop_last(), counts.drop_last());
        assert(popcount(masks[masks.len() - 1]) <= counts[masks.len() - 1]);
    }
}

} // verus!
