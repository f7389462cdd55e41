use vstd::prelude::*;

verus! {

/// Whether bit `i` of `b` is set.
pub open spec fn bit_set(b: u8, i: nat) -> bool {
    (b >> (i as u8)) & 1 == 1
}

/// The bit of `byte` at position `bit`, counting from the least significant.
pub fn get_bit(byte: u8, bit: u8) -> (r: u8)
    requires
        bit < 8,
    ensures
        r == (byte >> bit) & 1,
        r <= 1,
        r == 1 <==> bit_set(byte, bit as nat),
{
    let r = (byte >> bit) & 1;
    assert(r <= 1) by (bit_vector)
        requires
            r == (byte >> bit) & 1,
    ;
    r
}

/// Sets the bit of `byte` at position `bit`.
pub fn set_bit(byte: &mut u8, bit: u8)
    requires
        bit < 8,
    ensures
        *final(byte) == *old(byte) | (1u8 << bit),
{
    *byte = *byte | (1u8 << bit);
}

} // verus!
