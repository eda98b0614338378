//! Facts about the six JSON type bits and masks built from them.

use vstd::prelude::*;

verus! {

/// One of the six JSON type bits.
pub open spec fn is_type_bit(t: u8) -> bool {
    t == 1 || t == 2 || t == 4 || t == 8 || t == 16 || t == 32
}

/// Two type bits share a bit exactly when they are equal; a type bit lies
/// within the six-bit mask and outside the empty one.
pub proof fn lemma_single_bits(t: u8, u: u8)
    requires
        is_type_bit(t),
        is_type_bit(u),
    ensures
        (t & u != 0) == (t == u),
        t & 192u8 == 0,
        (63u8 & u) != 0,
        (0u8 & u) == 0,
{
    assert((t & u != 0) == (t == u)) by (bit_vector)
        requires (t == 1 || t == 2 || t == 4 || t == 8 || t == 16 || t == 32),
            (u == 1 || u == 2 || u == 4 || u == 8 || u == 16 || u == 32);
    assert(t & 192u8 == 0) by (bit_vector)
        requires t == 1 || t == 2 || t == 4 || t == 8 || t == 16 || t == 32;
    assert((63u8 & u) != 0) by (bit_vector)
        requires u == 1 || u == 2 || u == 4 || u == 8 || u == 16 || u == 32;
    assert((0u8 & u) == 0) by (bit_vector);
}

/// A mask within the six type bits is zero exactly when no type bit is set,
/// and has no bit outside `bit` exactly when every other type bit is clear.
pub proof fn lemma_mask_only(m: u8, bit: u8)
    requires
        m & 192u8 == 0,
        is_type_bit(bit),
    ensures
        (m == 0) <==> (forall|t: u8| is_type_bit(t) ==> #[trigger] (m & t) == 0),
        (m & !bit == 0) <==> (forall|t: u8| is_type_bit(t) && t != bit ==> #[trigger] (m & t) == 0),
{
    assert((m == 0) <==> (m & 1 == 0 && m & 2 == 0 && m & 4 == 0 && m & 8 == 0 && m & 16 == 0 && m & 32 == 0)) by (bit_vector)
        requires m & 192u8 == 0;
    assert((m & !bit == 0) <==> ((bit == 1 || m & 1 == 0) && (bit == 2 || m & 2 == 0) && (bit == 4 || m & 4 == 0)
        && (bit == 8 || m & 8 == 0) && (bit == 16 || m & 16 == 0) && (bit == 32 || m & 32 == 0))) by (bit_vector)
        requires
            m & 192u8 == 0,
            bit == 1 || bit == 2 || bit == 4 || bit == 8 || bit == 16 || bit == 32;
    if !(m == 0) {
        assert(!(m & 1 == 0 && m & 2 == 0 && m & 4 == 0 && m & 8 == 0 && m & 16 == 0 && m & 32 == 0));
    }
}

} // verus!
