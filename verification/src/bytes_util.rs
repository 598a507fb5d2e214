use vstd::prelude::*;
use crate::errors::DnsError;

verus! {

pub struct BytesUtil;

/// The four big-endian bytes of a 32-bit value, most significant first.
pub open spec fn spec_u32_bytes(value: u32) -> Seq<u8> {
    seq![
        (value / 0x1000000) as u8,
        ((value / 0x10000) % 0x100) as u8,
        ((value / 0x100) % 0x100) as u8,
        (value % 0x100) as u8,
    ]
}

impl BytesUtil {
    pub fn from_u32(value: u32) -> (r: [u8; 4])
        ensures
            r@ == spec_u32_bytes(value),
    {
        let r: [u8; 4] = [
            ((value >> 24) & 0xFF) as u8,
            ((value >> 16) & 0xFF) as u8,
            ((value >> 8) & 0xFF) as u8,
            (value & 0xFF) as u8,
        ];

        proof {
            assert((value >> 24) & 0xFF == value / 0x1000000) by (bit_vector);
            assert((value >> 16) & 0xFF == (value / 0x10000) % 0x100) by (bit_vector);
            assert((value >> 8) & 0xFF == (value / 0x100) % 0x100) by (bit_vector);
            assert(value & 0xFF == value % 0x100) by (bit_vector);
            assert(r@ =~= spec_u32_bytes(value));
        }

        r
    }

    pub fn parse_u32(bytes: &[u8]) -> (r: Result<u32, DnsError>)
        ensures
            bytes@.len() == 4 ==> (r matches Ok(v) && spec_u32_bytes(v) == bytes@),
            bytes@.len() != 4 ==> (r matches Err(e) && e == DnsError::EndOfBuffer),
    {
        if bytes.len() != 4 {
            return Err(DnsError::EndOfBuffer);
        }

        let b0: u32 = bytes[0] as u32;
        let b1: u32 = bytes[1] as u32;
        let b2: u32 = bytes[2] as u32;
        let b3: u32 = bytes[3] as u32;

        let r: u32 = (b0 << 24) | (b1 << 16) | (b2 << 8) | b3;

        proof {
            assert(b0 < 0x100 && b1 < 0x100 && b2 < 0x100 && b3 < 0x100);
            assert(b0 < 0x100 && b1 < 0x100 && b2 < 0x100 && b3 < 0x100 ==> {
                &&& ((b0 << 24) | (b1 << 16) | (b2 << 8) | b3) / 0x1000000 == b0
                &&& (((b0 << 24) | (b1 << 16) | (b2 << 8) | b3) / 0x10000) % 0x100 == b1
                &&& (((b0 << 24) | (b1 << 16) | (b2 << 8) | b3) / 0x100) % 0x100 == b2
                &&& ((b0 << 24) | (b1 << 16) | (b2 << 8) | b3) % 0x100 == b3
            }) by (bit_vector);
            assert(spec_u32_bytes(r) =~= bytes@);
        }

        Ok(r)
    }
}

} // verus!
