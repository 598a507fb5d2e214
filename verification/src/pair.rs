use vstd::prelude::*;

verus! {

/// The two big-endian bytes of a 16-bit value, most significant first.
pub open spec fn spec_u16_bytes(value: u16) -> Seq<u8> {
    seq![(value / 256) as u8, (value % 256) as u8]
}

/// The two big-endian bytes of a 16-bit value.
#[derive(PartialEq, Eq, Structural, Clone, Copy, Debug)]
pub struct BytesPair(pub u8, pub u8);

impl BytesPair {
    pub open spec fn spec_value(self) -> u16 {
        (self.0 * 256 + self.1) as u16
    }

    pub fn new(first: u8, second: u8) -> (r: Self)
        ensures
            r == (BytesPair(first, second)),
    {
        BytesPair(first, second)
    }

    pub fn from(value: u16) -> (r: Self)
        ensures
            r.spec_value() == value,
            r.0 == value / 256,
            r.1 == value % 256,
    {
        let first: u8 = (value >> 8) as u8;
        let second: u8 = (value & 0xFF) as u8;

        proof {
            assert(value >> 8 == value / 256) by (bit_vector);
            assert(value & 0xFF == value % 256) by (bit_vector);
        }

        BytesPair(first, second)
    }

    pub fn to_u16(&self) -> (r: u16)
        ensures
            r == self.spec_value(),
    {
        let r: u16 = ((self.0 as u16) << 8) | (self.1 as u16);

        proof {
            let a = self.0 as u16;
            let b = self.1 as u16;
            assert(a < 0x100 && b < 0x100 ==> ((a << 8) | b) == a * 256 + b) by (bit_vector);
        }

        r
    }

    pub fn bytes(&self) -> (r: Vec<u8>)
        ensures
            r@ =~= seq![self.0, self.1],
            r@ == spec_u16_bytes(self.spec_value()),
    {
        proof {
            assert(self.spec_value() / 256 == self.0 && self.spec_value() % 256 == self.1) by {
                assert(self.0 * 256 + self.1 < 0x10000);
            }
            assert(seq![self.0, self.1] =~= spec_u16_bytes(self.spec_value()));
        }
        let mut r: Vec<u8> = Vec::new();
        r.push(self.0);
        r.push(self.1);

        r
    }
}

} // verus!
