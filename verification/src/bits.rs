//! Single bits of a `u64` bitmap, and how the bitwise operators act on them.
use vstd::prelude::*;

verus! {

/// Bit `j` of `x` is set (bits outside `0..64` never are).
pub open spec fn bit(x: u64, j: int) -> bool {
    0 <= j < 64 && (x >> (j as u64)) & 1u64 == 1u64
}

proof fn bv_and(x: u64, y: u64, j: u64)
    by (bit_vector)
    requires
        j < 64,
    ensures
        (((x & y) >> j) & 1u64 == 1u64) == (((x >> j) & 1u64 == 1u64) && ((y >> j) & 1u64 == 1u64)),
        (((x | y) >> j) & 1u64 == 1u64) == (((x >> j) & 1u64 == 1u64) || ((y >> j) & 1u64 == 1u64)),
        (((x ^ y) >> j) & 1u64 == 1u64) == (((x >> j) & 1u64 == 1u64) != ((y >> j) & 1u64 == 1u64)),
        (((!x) >> j) & 1u64 == 1u64) == !((x >> j) & 1u64 == 1u64),
{
}

proof fn bv_shift(x: u64, s: u64, j: u64)
    by (bit_vector)
    requires
        j < 64,
        s < 64,
    ensures
        (((x >> s) >> j) & 1u64 == 1u64) == (j + s < 64 && ((x >> (j + s) as u64) & 1u64 == 1u64)),
        (((x << s) >> j) & 1u64 == 1u64) == (j >= s && ((x >> (j - s) as u64) & 1u64 == 1u64)),
        (((1u64 << s) >> j) & 1u64 == 1u64) == (j == s),
{
}

proof fn bv_xor_zero(x: u64, y: u64)
    by (bit_vector)
    ensures
        (x ^ y == 0u64) == (x == y),
{
}

/// `&` acts bit by bit.
pub broadcast proof fn lemma_bit_and(x: u64, y: u64, j: int)
    ensures
        #[trigger] bit(x & y, j) == (bit(x, j) && bit(y, j)),
{
    if 0 <= j < 64 {
        bv_and(x, y, j as u64);
    }
}

/// `|` acts bit by bit.
pub broadcast proof fn lemma_bit_or(x: u64, y: u64, j: int)
    ensures
        #[trigger] bit(x | y, j) == (bit(x, j) || bit(y, j)),
{
    if 0 <= j < 64 {
        bv_and(x, y, j as u64);
    }
}

/// `^` acts bit by bit.
pub broadcast proof fn lemma_bit_xor(x: u64, y: u64, j: int)
    ensures
        #[trigger] bit(x ^ y, j) == (bit(x, j) != bit(y, j)),
{
    if 0 <= j < 64 {
        bv_and(x, y, j as u64);
    }
}

/// `!` flips every bit.
pub broadcast proof fn lemma_bit_not(x: u64, j: int)
    ensures
        #[trigger] bit(!x, j) == (0 <= j < 64 && !bit(x, j)),
{
    if 0 <= j < 64 {
        bv_and(x, x, j as u64);
    }
}

/// A right shift moves every bit down by the shift.
pub broadcast proof fn lemma_bit_shr(x: u64, s: u64, j: int)
    requires
        s < 64,
    ensures
        #[trigger] bit(x >> s, j) == (0 <= j && bit(x, j + s)),
{
    if 0 <= j < 64 {
        bv_shift(x, s, j as u64);
    }
}

/// A left shift moves every bit up by the shift.
pub broadcast proof fn lemma_bit_shl(x: u64, s: u64, j: int)
    requires
        s < 64,
    ensures
        #[trigger] bit(x << s, j) == (j < 64 && bit(x, j - s)),
{
    if 0 <= j < 64 {
        bv_shift(x, s, j as u64);
    }
}

/// `1 << s` has exactly bit `s`.
pub broadcast proof fn lemma_bit_single(s: u64, j: int)
    requires
        s < 64,
    ensures
        #[trigger] bit(1u64 << s, j) == (j == s),
{
    if 0 <= j < 64 {
        bv_shift(1u64, s, j as u64);
    }
}

pub broadcast group group_bits {
    lemma_bit_and,
    lemma_bit_or,
    lemma_bit_xor,
    lemma_bit_not,
    lemma_bit_shr,
    lemma_bit_shl,
    lemma_bit_single,
}

/// A nonzero bitmap has a set bit; this returns the lowest one.
pub proof fn lemma_some_bit(x: u64) -> (j: int)
    requires
        x != 0,
    ensures
        0 <= j < 64,
        bit(x, j),
        forall|i: int| 0 <= i < j ==> !#[trigger] bit(x, i),
{
    vstd::std_specs::bits::axiom_u64_trailing_zeros(x);
    let t = vstd::std_specs::bits::u64_trailing_zeros(x);
    assert forall|i: int| 0 <= i < t implies !#[trigger] bit(x, i) by {
        assert((x >> (i as u64)) & 1u64 == 0u64);
    }
    t as int
}

/// The zero bitmap is the one with no bit set.
pub proof fn lemma_zero_iff_no_bit(x: u64)
    ensures
        (x == 0) == (forall|j: int| !#[trigger] bit(x, j)),
{
    if x != 0 {
        let j = lemma_some_bit(x);
    } else {
        assert forall|j: int| !#[trigger] bit(x, j) by {
            if 0 <= j < 64 {
                bv_and(x, !x, j as u64);
                assert(x & !x == 0u64) by (bit_vector);
            }
        }
    }
}

/// Two bitmaps with the same bits are equal.
pub proof fn lemma_bits_equal(x: u64, y: u64)
    requires
        forall|j: int| 0 <= j < 64 ==> #[trigger] bit(x, j) == bit(y, j),
    ensures
        x == y,
{
    broadcast use group_bits;

    if x ^ y != 0 {
        let j = lemma_some_bit(x ^ y);
        assert(bit(x, j) == bit(y, j));
    }
    bv_xor_zero(x, y);
}


proof fn bv_add_disjoint(x: u64, y: u64)
    by (bit_vector)
    requires
        x & y == 0u64,
    ensures
        x + y <= 0xffff_ffff_ffff_ffffu64,
        x + y == x | y,
{
}

/// Adding bitmaps with no common bit sets the bits of both, and does not overflow.
pub proof fn lemma_add_disjoint(x: u64, y: u64)
    requires
        forall|j: int| !(#[trigger] bit(x, j) && bit(y, j)),
    ensures
        x + y <= u64::MAX,
        x + y == x | y,
{
    broadcast use group_bits;

    assert forall|j: int| !#[trigger] bit(x & y, j) by {}
    lemma_zero_iff_no_bit(x & y);
    bv_add_disjoint(x, y);
}
} // verus!
