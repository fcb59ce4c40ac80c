//! Single bits of a line mask.

use vstd::prelude::*;

verus! {

/// Bit `j` of `mask` is set.
pub open spec fn bit(mask: u16, j: int) -> bool {
    0 <= j < 16 && (mask >> (j as u16)) & 1u16 == 1u16
}

/// Setting bit `b` sets it and leaves the others.
pub proof fn lemma_set_bit(mask: u16, b: u16, j: u16)
    requires
        b < 16,
        j < 16,
    ensures
        bit(mask | (1u16 << b), j as int) == (bit(mask, j as int) || j == b),
{
    assert(((mask | (1u16 << b)) >> j) & 1u16 == 1u16 <==> (((mask >> j) & 1u16 == 1u16) || j
        == b)) by (bit_vector)
        requires
            b < 16,
            j < 16,
    ;
}

/// Clearing bit `b` clears it and leaves the others.
pub proof fn lemma_clear_bit(mask: u16, b: u16, j: u16)
    requires
        b < 16,
        j < 16,
    ensures
        bit(mask & !(1u16 << b), j as int) == (bit(mask, j as int) && j != b),
{
    assert(((mask & !(1u16 << b)) >> j) & 1u16 == 1u16 <==> (((mask >> j) & 1u16 == 1u16) && j
        != b)) by (bit_vector)
        requires
            b < 16,
            j < 16,
    ;
}

/// The empty mask has no bit set.
pub proof fn lemma_zero_bits(j: u16)
    requires
        j < 16,
    ensures
        !bit(0u16, j as int),
{
    assert((0u16 >> j) & 1u16 == 0u16) by (bit_vector);
}

/// Masks that agree on every bit are equal.
pub proof fn lemma_bits_determine(a: u16, b: u16)
    requires
        forall|j: int| 0 <= j < 16 ==> bit(a, j) == bit(b, j),
    ensures
        a == b,
{
    assert(bit(a, 0) == bit(b, 0));
    assert(bit(a, 1) == bit(b, 1));
    assert(bit(a, 2) == bit(b, 2));
    assert(bit(a, 3) == bit(b, 3));
    assert(bit(a, 4) == bit(b, 4));
    assert(bit(a, 5) == bit(b, 5));
    assert(bit(a, 6) == bit(b, 6));
    assert(bit(a, 7) == bit(b, 7));
    assert(bit(a, 8) == bit(b, 8));
    assert(bit(a, 9) == bit(b, 9));
    assert(bit(a, 10) == bit(b, 10));
    assert(bit(a, 11) == bit(b, 11));
    assert(bit(a, 12) == bit(b, 12));
    assert(bit(a, 13) == bit(b, 13));
    assert(bit(a, 14) == bit(b, 14));
    assert(bit(a, 15) == bit(b, 15));
    assert(a == b) by (bit_vector)
        requires
            ((a >> 0u16) & 1u16 == 1u16) == ((b >> 0u16) & 1u16 == 1u16),
            ((a >> 1u16) & 1u16 == 1u16) == ((b >> 1u16) & 1u16 == 1u16),
            ((a >> 2u16) & 1u16 == 1u16) == ((b >> 2u16) & 1u16 == 1u16),
            ((a >> 3u16) & 1u16 == 1u16) == ((b >> 3u16) & 1u16 == 1u16),
            ((a >> 4u16) & 1u16 == 1u16) == ((b >> 4u16) & 1u16 == 1u16),
            ((a >> 5u16) & 1u16 == 1u16) == ((b >> 5u16) & 1u16 == 1u16),
            ((a >> 6u16) & 1u16 == 1u16) == ((b >> 6u16) & 1u16 == 1u16),
            ((a >> 7u16) & 1u16 == 1u16) == ((b >> 7u16) & 1u16 == 1u16),
            ((a >> 8u16) & 1u16 == 1u16) == ((b >> 8u16) & 1u16 == 1u16),
            ((a >> 9u16) & 1u16 == 1u16) == ((b >> 9u16) & 1u16 == 1u16),
            ((a >> 10u16) & 1u16 == 1u16) == ((b >> 10u16) & 1u16 == 1u16),
            ((a >> 11u16) & 1u16 == 1u16) == ((b >> 11u16) & 1u16 == 1u16),
            ((a >> 12u16) & 1u16 == 1u16) == ((b >> 12u16) & 1u16 == 1u16),
            ((a >> 13u16) & 1u16 == 1u16) == ((b >> 13u16) & 1u16 == 1u16),
            ((a >> 14u16) & 1u16 == 1u16) == ((b >> 14u16) & 1u16 == 1u16),
            ((a >> 15u16) & 1u16 == 1u16) == ((b >> 15u16) & 1u16 == 1u16),
    ;
}

/// The mask whose bits are set exactly where `pred` holds.
pub open spec fn mask_of(pred: spec_fn(int) -> bool) -> u16 {
    choose|m: u16| has_bits(m, pred)
}

/// Bit `j` of `m` is set exactly where `pred` holds.
pub open spec fn has_bits(m: u16, pred: spec_fn(int) -> bool) -> bool {
    forall|j: int| 0 <= j < 16 ==> #[trigger] bit(m, j) == pred(j)
}

/// A mask with the bits `pred` describes is `mask_of(pred)`.
pub proof fn lemma_mask_of(m: u16, pred: spec_fn(int) -> bool)
    requires
        forall|j: int| 0 <= j < 16 ==> #[trigger] bit(m, j) == pred(j),
    ensures
        mask_of(pred) == m,
{
    assert(has_bits(m, pred));
    let c = mask_of(pred);
    assert(has_bits(c, pred));
    assert forall|j: int| 0 <= j < 16 implies bit(c, j) == bit(m, j) by {
        let _ = pred(j);
    }
    lemma_bits_determine(c, m);
}

/// A mask whose bits below `n` are those `pred` holds at, and the others clear.
proof fn lemma_mask_upto(pred: spec_fn(int) -> bool, n: int) -> (m: u16)
    requires
        0 <= n <= 16,
    ensures
        forall|j: int| 0 <= j < 16 ==> #[trigger] bit(m, j) == (j < n && pred(j)),
    decreases n,
{
    if n == 0 {
        assert forall|j: int| 0 <= j < 16 implies #[trigger] bit(0u16, j) == (j < n && pred(j)) by {
            lemma_zero_bits(j as u16);
        }
        0u16
    } else {
        let prev = lemma_mask_upto(pred, n - 1);
        if pred(n - 1) {
            let m = prev | (1u16 << ((n - 1) as u16));
            assert forall|j: int| 0 <= j < 16 implies #[trigger] bit(m, j) == (j < n && pred(j)) by {
                lemma_set_bit(prev, (n - 1) as u16, j as u16);
            }
            m
        } else {
            prev
        }
    }
}

/// Every set of bit positions has a mask: `mask_of` has exactly those bits.
pub proof fn lemma_mask_exists(pred: spec_fn(int) -> bool)
    ensures
        has_bits(mask_of(pred), pred),
{
    let m = lemma_mask_upto(pred, 16);
    assert(has_bits(m, pred));
}

/// Setting a bit that was clear makes the mask larger.
pub proof fn lemma_set_clear_bit_grows(mask: u16, b: u16)
    requires
        b < 16,
        !bit(mask, b as int),
    ensures
        (mask | (1u16 << b)) > mask,
{
    assert((mask >> b) & 1u16 != 1u16 ==> (mask | (1u16 << b)) > mask) by (bit_vector)
        requires
            b < 16,
    ;
}

/// Five set bits in a row, starting anywhere.
pub open spec fn five_in_a_row(mask: u16) -> bool {
    let c2 = mask & (mask >> 1);
    let c4 = c2 & (c2 >> 2);
    (c4 & (mask >> 4)) != 0
}

/// Returns `true` if a u16 line mask contains 5 or more consecutive set bits.
pub fn has_five_consecutive(mask: u16) -> (result: bool)
    ensures
        result == five_in_a_row(mask),
{
    let c2 = mask & (mask >> 1);
    let c4 = c2 & (c2 >> 2);
    let c5 = c4 & (mask >> 4);
    c5 != 0
}

/// Bits `i` to `i + 4` of `mask` are all set.
pub open spec fn run_at(mask: u16, i: int) -> bool {
    forall|t: int| 0 <= t < 5 ==> #[trigger] bit(mask, i + t)
}

/// Five set bits in a row are a run starting at some bit, and a run is
/// five set bits in a row.
pub proof fn lemma_five_in_a_row_is_a_run(mask: u16)
    ensures
        five_in_a_row(mask) <==> exists|i: int| 0 <= i <= 11 && #[trigger] run_at(mask, i),
{
    let x = (mask & (mask >> 1u16)) & ((mask & (mask >> 1u16)) >> 2u16) & (mask >> 4u16);
    assert(five_in_a_row(mask) == (x != 0u16));
    if x != 0u16 {
        if forall|j: int| 0 <= j < 16 ==> !#[trigger] bit(x, j) {
            assert forall|j: int| 0 <= j < 16 implies bit(x, j) == bit(0u16, j) by {
                lemma_zero_bits(j as u16);
            }
            lemma_bits_determine(x, 0u16);
        }
        let j = choose|j: int| 0 <= j < 16 && #[trigger] bit(x, j);
        let b = j as u16;
        assert(b <= 11 && (mask >> b) & 1u16 == 1u16 && (mask >> (b + 1u16)) & 1u16 == 1u16 && (mask >> (b
            + 2u16)) & 1u16 == 1u16 && (mask >> (b + 3u16)) & 1u16 == 1u16 && (mask >> (b + 4u16)) & 1u16 == 1u16)
            by (bit_vector)
            requires
                b < 16,
                x == (mask & (mask >> 1u16)) & ((mask & (mask >> 1u16)) >> 2u16) & (mask >> 4u16),
                (x >> b) & 1u16 == 1u16,
        ;
        assert(run_at(mask, j));
    }
    if exists|i: int| 0 <= i <= 11 && #[trigger] run_at(mask, i) {
        let i = choose|i: int| 0 <= i <= 11 && #[trigger] run_at(mask, i);
        let b = i as u16;
        assert(bit(mask, i + 0) && bit(mask, i + 1) && bit(mask, i + 2) && bit(mask, i + 3) && bit(mask, i + 4));
        assert(x != 0u16) by (bit_vector)
            requires
                b <= 11,
                x == (mask & (mask >> 1u16)) & ((mask & (mask >> 1u16)) >> 2u16) & (mask >> 4u16),
                (mask >> b) & 1u16 == 1u16,
                (mask >> (b + 1u16)) & 1u16 == 1u16,
                (mask >> (b + 2u16)) & 1u16 == 1u16,
                (mask >> (b + 3u16)) & 1u16 == 1u16,
                (mask >> (b + 4u16)) & 1u16 == 1u16,
        ;
    }
}

} // verus!
