use vstd::prelude::*;

verus! {

/// Record and question types, each carrying its assigned 16-bit code.
/// Any code without a row of its own reads back as `ASTERISK`.
#[derive(PartialEq, Eq, Structural, Debug, Clone, Hash, Copy)]
pub enum QueryType {
    A,
    NS,
    CNAME,
    SOA,
    PTR,
    HINFO,
    MX,
    TXT,
    AAAA,
    SRV,
    OPT,
    AXFR,
    MAILB,
    MAILA,
    ASTERISK,
}

impl QueryType {
    /// The wire code of this type.
    pub open spec fn spec_num(self) -> u16 {
        match self {
            QueryType::A => 1,
            QueryType::NS => 2,
            QueryType::CNAME => 5,
            QueryType::SOA => 6,
            QueryType::PTR => 12,
            QueryType::HINFO => 13,
            QueryType::MX => 15,
            QueryType::TXT => 16,
            QueryType::AAAA => 28,
            QueryType::SRV => 33,
            QueryType::OPT => 41,
            QueryType::AXFR => 252,
            QueryType::MAILB => 253,
            QueryType::MAILA => 254,
            QueryType::ASTERISK => 255,
        }
    }

    /// The type a wire code reads back as; unknown codes give `ASTERISK`.
    pub open spec fn spec_from(value: u16) -> QueryType {
        if value == 1 {
            QueryType::A
        } else if value == 2 {
            QueryType::NS
        } else if value == 5 {
            QueryType::CNAME
        } else if value == 6 {
            QueryType::SOA
        } else if value == 12 {
            QueryType::PTR
        } else if value == 13 {
            QueryType::HINFO
        } else if value == 15 {
            QueryType::MX
        } else if value == 16 {
            QueryType::TXT
        } else if value == 28 {
            QueryType::AAAA
        } else if value == 33 {
            QueryType::SRV
        } else if value == 41 {
            QueryType::OPT
        } else if value == 252 {
            QueryType::AXFR
        } else if value == 253 {
            QueryType::MAILB
        } else if value == 254 {
            QueryType::MAILA
        } else {
            QueryType::ASTERISK
        }
    }

    pub fn from(value: u16) -> (r: QueryType)
        ensures
            r == QueryType::spec_from(value),
    {
        match value {
            1 => QueryType::A,
            2 => QueryType::NS,
            5 => QueryType::CNAME,
            6 => QueryType::SOA,
            12 => QueryType::PTR,
            13 => QueryType::HINFO,
            15 => QueryType::MX,
            16 => QueryType::TXT,
            28 => QueryType::AAAA,
            33 => QueryType::SRV,
            41 => QueryType::OPT,
            252 => QueryType::AXFR,
            253 => QueryType::MAILB,
            254 => QueryType::MAILA,
            _ => QueryType::ASTERISK,
        }
    }

    pub fn to_num(&self) -> (r: u16)
        ensures
            r == self.spec_num(),
    {
        match *self {
            QueryType::A => 1,
            QueryType::NS => 2,
            QueryType::CNAME => 5,
            QueryType::SOA => 6,
            QueryType::PTR => 12,
            QueryType::HINFO => 13,
            QueryType::MX => 15,
            QueryType::TXT => 16,
            QueryType::AAAA => 28,
            QueryType::SRV => 33,
            QueryType::OPT => 41,
            QueryType::AXFR => 252,
            QueryType::MAILB => 253,
            QueryType::MAILA => 254,
            QueryType::ASTERISK => 255,
        }
    }
}

impl Default for QueryType {
    fn default() -> (r: Self)
        ensures
            r == QueryType::A,
    {
        QueryType::A
    }
}

/// Reading a type's own code back gives the type itself.
pub proof fn lemma_query_type_code_round_trip(t: QueryType)
    ensures
        QueryType::spec_from(t.spec_num()) == t,
{
}

} // verus!
