//! Bit paths: the order in which the bits of a digest steer a descent.

use bit_vec::BitVec;
use vstd::prelude::*;

verus! {

/// `bit_vec::BitVec`, whose blocks the verifier does not look into.
#[verifier::external_type_specification]
#[verifier::external_body]
#[verifier::reject_recursive_types(B)]
pub struct ExBitVec<B>(bit_vec::BitVec<B>);

/// The bits that a `BitVec` holds, first bit first.
pub uninterp spec fn bit_seq(bits: BitVec) -> Seq<bool>;

/// Bit `k` of `byte`, counted from the least significant one.
pub open spec fn bit_of(byte: u8, k: int) -> bool {
    (byte >> (k as u8)) & 1u8 == 1u8
}

/// The bits of `bytes`, byte by byte, the most significant bit of each byte
/// first.
pub open spec fn msb_first(bytes: Seq<u8>) -> Seq<bool> {
    Seq::new(8 * bytes.len(), |i: int| bit_of(bytes[i / 8], 7 - i % 8))
}

/// `BitVec::from_bytes` turns each byte into eight bits, the most
/// significant first, and panics when the bit count does not fit in
/// `usize`.
pub assume_specification[ bit_vec::BitVec::<u32>::from_bytes ](bytes: &[u8]) -> (bits: BitVec<u32>)
    requires
        8 * bytes@.len() <= usize::MAX,
    ensures
        bit_seq(bits) == msb_first(bytes@),
;

/// Reads bit `i` through `BitVec`'s `Index` impl, which returns the bit at
/// that position and panics past the end.
#[verifier::external_body]
pub(crate) fn bit_at(bits: &BitVec, i: usize) -> (b: bool)
    requires
        i < bit_seq(*bits).len(),
    ensures
        b == bit_seq(*bits)[i as int],
{
    bits[i]
}

/// The bits of `val` in the order in which they steer a descent: byte by
/// byte, the most significant bit of each byte first.
pub fn to_bitvec(val: &[u8]) -> (bits: BitVec)
    requires
        8 * val@.len() <= usize::MAX,
    ensures
        bit_seq(bits) == msb_first(val@),
{
    BitVec::from_bytes(val)
}

} // verus!
