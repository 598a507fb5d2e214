use vstd::prelude::*;

verus! {

pub fn u16_to_u8(value: u16) -> (r: (u8, u8))
    ensures
        r.0 == value / 256,
        r.1 == value % 256,
        value == r.0 * 256 + r.1,
{
    let first: u8 = (value >> 8) as u8;
    let second: u8 = (value & 0xFF) as u8;

    proof {
        assert(value >> 8 == value / 256) by (bit_vector);
        assert(value & 0xFF == value % 256) by (bit_vector);
    }

    (first, second)
}

pub fn bool_to_u8(value: bool) -> (r: u8)
    ensures
        r == (if value { 1u8 } else { 0u8 }),
{
    if value {
        return 1;
    }

    0
}

} // verus!
