use vstd::prelude::*;

verus! {

/// The 12-byte message header: 16-bit id, the flag bits, and the four
/// section counts that drive parsing and serialisation.
#[derive(Clone, Copy, Debug, PartialEq, Eq, Structural)]
pub struct Header {
    pub id: u16,
    pub response: bool,
    pub opcode: u8,
    pub authoritative: bool,
    pub truncation: bool,
    pub recursion_desired: bool,
    pub recursion_available: bool,
    pub reserved: u8,
    pub code: u8,
    pub question_count: u16,
    pub answer_count: u16,
    pub authority_count: u16,
    pub resource_count: u16,
}

impl Header {
    /// The all-zero header.
    pub open spec fn spec_default() -> Header {
        Header {
            id: 0,
            response: false,
            opcode: 0,
            authoritative: false,
            truncation: false,
            recursion_desired: false,
            recursion_available: false,
            reserved: 0,
            code: 0,
            question_count: 0,
            answer_count: 0,
            authority_count: 0,
            resource_count: 0,
        }
    }

    pub fn new() -> (r: Header)
        ensures
            r == Header::spec_default(),
    {
        Header {
            id: 0,
            response: false,
            opcode: 0,
            authoritative: false,
            truncation: false,
            recursion_desired: false,
            recursion_available: false,
            reserved: 0,
            code: 0,
            question_count: 0,
            answer_count: 0,
            authority_count: 0,
            resource_count: 0,
        }
    }
}

impl Default for Header {
    fn default() -> (r: Self)
        ensures
            r == Header::spec_default(),
    {
        Header::new()
    }
}

} // verus!
