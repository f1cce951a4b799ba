//! Candidate masks: nine-bit sets of digits, held in the bits 1 to 9 of a `u16`.

use vstd::prelude::*;

verus! {

/// The mask in which every digit from 1 to 9 is still allowed. Bit 0 is never used.
pub const ALL_POSSIBILITIES: u16 = 0x3FE;

/// Whether the bit of digit `d` is set in `m`.
pub open spec fn has_bit(m: u16, d: u8) -> bool {
    (m >> (d as u16)) & 1u16 == 1u16
}

/// Whether `m` holds no bit outside the digits 1 to 9.
pub open spec fn is_mask(m: u16) -> bool {
    m & !ALL_POSSIBILITIES == 0
}

/// The number of bits set in `m`.
pub open spec fn popcount(m: u16) -> int {
    ((m >> 0u16) & 1u16) + ((m >> 1u16) & 1u16) + ((m >> 2u16) & 1u16) + ((m >> 3u16) & 1u16)
        + ((m >> 4u16) & 1u16) + ((m >> 5u16) & 1u16) + ((m >> 6u16) & 1u16) + ((m >> 7u16) & 1u16)
        + ((m >> 8u16) & 1u16) + ((m >> 9u16) & 1u16) + ((m >> 10u16) & 1u16) + ((m >> 11u16)
        & 1u16) + ((m >> 12u16) & 1u16) + ((m >> 13u16) & 1u16) + ((m >> 14u16) & 1u16) + ((m
        >> 15u16) & 1u16)
}

/// The standard library's `u16::count_ones`, whose contract is taken on trust: it
/// returns the number of bits that are set in its argument.
pub assume_specification[ u16::count_ones ](i: u16) -> (r: u32)
    ensures
        r == popcount(i),
;

/// The full mask holds exactly the nine digits.
pub proof fn lemma_all_possibilities()
    ensures
        is_mask(ALL_POSSIBILITIES),
        popcount(ALL_POSSIBILITIES) == 9,
        forall|d: u8| #[trigger] has_bit(ALL_POSSIBILITIES, d) <==> 1 <= d <= 9,
{
    assert(0x3FEu16 & !0x3FEu16 == 0) by (bit_vector);
    assert(popcount(0x3FEu16) == 9) by (bit_vector);
    assert forall|d: u8| #[trigger] has_bit(ALL_POSSIBILITIES, d) <==> 1 <= d <= 9 by {
        assert(((0x3FEu16 >> (d as u16)) & 1u16 == 1u16) <==> 1 <= d <= 9) by (bit_vector);
    }
}

/// The empty mask holds no digit.
pub proof fn lemma_empty_mask(d: u8)
    ensures
        !has_bit(0, d),
{
    assert(!((0u16 >> (d as u16)) & 1u16 == 1u16)) by (bit_vector);
}

/// A mask has between zero and nine bits, and only digits from 1 to 9.
pub proof fn lemma_mask_bounds(m: u16)
    requires
        is_mask(m),
    ensures
        0 <= popcount(m) <= 9,
        popcount(m) == 0 <==> m == 0,
        forall|d: u8| #[trigger] has_bit(m, d) ==> 1 <= d <= 9,
{
    assert(0 <= popcount(m) <= 9 && (popcount(m) == 0 <==> m == 0)) by (bit_vector)
        requires
            m & !0x3FEu16 == 0,
    ;
    assert forall|d: u8| #[trigger] has_bit(m, d) implies 1 <= d <= 9 by {
        assert(((m >> (d as u16)) & 1u16 == 1u16) ==> 1 <= d <= 9) by (bit_vector)
            requires
                m & !0x3FEu16 == 0,
        ;
    }
}

/// Clearing a digit that is set takes exactly that digit out of the mask.
pub proof fn lemma_clear_bit(m: u16, d: u8)
    requires
        1 <= d <= 9,
        has_bit(m, d),
    ensures
        popcount(m & !(1u16 << d)) == popcount(m) - 1,
        m & !(1u16 << d) < m,
        is_mask(m) ==> is_mask(m & !(1u16 << d)),
        forall|e: u8| #[trigger] has_bit(m & !(1u16 << d), e) <==> has_bit(m, e) && e != d,
{
    let c = m & !(1u16 << d);
    assert(c == m & !(1u16 << (d as u16)));
    assert(popcount(m & !(1u16 << (d as u16))) == popcount(m) - 1 && m & !(1u16 << (d as u16)) < m
        && (m & !0x3FEu16 == 0 ==> (m & !(1u16 << (d as u16))) & !0x3FEu16 == 0)) by (bit_vector)
        requires
            1 <= d <= 9,
            (m >> (d as u16)) & 1u16 == 1u16,
    ;
    assert forall|e: u8| #[trigger] has_bit(c, e) <==> has_bit(m, e) && e != d by {
        assert((((m & !(1u16 << (d as u16))) >> (e as u16)) & 1u16 == 1u16) <==> ((m >> (e as u16))
            & 1u16 == 1u16) && e != d) by (bit_vector)
            requires
                1 <= d <= 9,
        ;
    }
}

/// A digit is in the intersection of three masks exactly when it is in each of them.
pub proof fn lemma_intersection(a: u16, b: u16, c: u16)
    ensures
        is_mask(a) ==> is_mask(a & b & c),
        forall|d: u8| #[trigger]
            has_bit(a & b & c, d) <==> has_bit(a, d) && has_bit(b, d) && has_bit(c, d),
{
    assert(a & !0x3FEu16 == 0 ==> (a & b & c) & !0x3FEu16 == 0) by (bit_vector);
    assert forall|d: u8| #[trigger]
        has_bit(a & b & c, d) <==> has_bit(a, d) && has_bit(b, d) && has_bit(c, d) by {
        assert((((a & b & c) >> (d as u16)) & 1u16 == 1u16) <==> ((a >> (d as u16)) & 1u16 == 1u16)
            && ((b >> (d as u16)) & 1u16 == 1u16) && ((c >> (d as u16)) & 1u16 == 1u16))
            by (bit_vector);
    }
}

/// The number of trailing zeros of a mask that is not empty is its smallest digit.
pub proof fn lemma_lowest_bit(m: u16)
    requires
        is_mask(m),
        m != 0,
    ensures
        1 <= m.trailing_zeros() <= 9,
        has_bit(m, m.trailing_zeros() as u8),
        forall|e: u8| e < m.trailing_zeros() ==> !#[trigger] has_bit(m, e),
{
    vstd::std_specs::bits::axiom_u16_trailing_zeros(m);
    let t = m.trailing_zeros();
    assert(t < 16);
    let tu = t as u16;
    assert((m >> tu) & 1u16 == 1u16);
    assert(has_bit(m, t as u8));
    lemma_mask_bounds(m);
    assert forall|e: u8| e < t implies !#[trigger] has_bit(m, e) by {
        let j = e as u16;
        assert((m >> j) & 1u16 == 0u16);
    }
}

/// Two masks that hold the same digits are equal.
pub proof fn lemma_mask_equal(a: u16, b: u16)
    requires
        is_mask(a),
        is_mask(b),
        forall|d: u8| 1 <= d <= 9 ==> (#[trigger] has_bit(a, d) <==> has_bit(b, d)),
    ensures
        a == b,
{
    assert(has_bit(a, 1) <==> has_bit(b, 1));
    assert(has_bit(a, 2) <==> has_bit(b, 2));
    assert(has_bit(a, 3) <==> has_bit(b, 3));
    assert(has_bit(a, 4) <==> has_bit(b, 4));
    assert(has_bit(a, 5) <==> has_bit(b, 5));
    assert(has_bit(a, 6) <==> has_bit(b, 6));
    assert(has_bit(a, 7) <==> has_bit(b, 7));
    assert(has_bit(a, 8) <==> has_bit(b, 8));
    assert(has_bit(a, 9) <==> has_bit(b, 9));
    assert(a == b) by (bit_vector)
        requires
            a & !0x3FEu16 == 0,
            b & !0x3FEu16 == 0,
            ((a >> 1u16) & 1u16 == 1u16) <==> ((b >> 1u16) & 1u16 == 1u16),
            ((a >> 2u16) & 1u16 == 1u16) <==> ((b >> 2u16) & 1u16 == 1u16),
            ((a >> 3u16) & 1u16 == 1u16) <==> ((b >> 3u16) & 1u16 == 1u16),
            ((a >> 4u16) & 1u16 == 1u16) <==> ((b >> 4u16) & 1u16 == 1u16),
            ((a >> 5u16) & 1u16 == 1u16) <==> ((b >> 5u16) & 1u16 == 1u16),
            ((a >> 6u16) & 1u16 == 1u16) <==> ((b >> 6u16) & 1u16 == 1u16),
            ((a >> 7u16) & 1u16 == 1u16) <==> ((b >> 7u16) & 1u16 == 1u16),
            ((a >> 8u16) & 1u16 == 1u16) <==> ((b >> 8u16) & 1u16 == 1u16),
            ((a >> 9u16) & 1u16 == 1u16) <==> ((b >> 9u16) & 1u16 == 1u16),
    ;
}

/// A digit is in a mask exactly when the mask and the digit's own bit have a bit in
/// common.
pub proof fn lemma_bit_test(m: u16, d: u8)
    requires
        1 <= d <= 9,
    ensures
        has_bit(m, d) <==> m & (1u16 << d) != 0,
{
    assert(((m >> (d as u16)) & 1u16 == 1u16) <==> m & (1u16 << (d as u16)) != 0) by (bit_vector)
        requires
            1 <= d <= 9,
    ;
}

} // verus!
