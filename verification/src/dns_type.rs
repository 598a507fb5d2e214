use vstd::prelude::*;

verus! {

/// The same type table as `QueryType`, under the name the probe-query
/// builder uses.
#[derive(PartialEq, Eq, Structural, Debug, Clone, Hash, Copy)]
pub enum DNSType {
    A,
    NS,
    CNAME,
    SOA,
    PTR,
    HINFO,
    MX,
    TXT,
    AAAA,
    SRV,
    OPT,
    AXFR,
    MAILB,
    MAILA,
    ASTERISK,
}

impl DNSType {
    pub open spec fn spec_num(self) -> u16 {
        match self {
            DNSType::A => 1,
            DNSType::NS => 2,
            DNSType::CNAME => 5,
            DNSType::SOA => 6,
            DNSType::PTR => 12,
            DNSType::HINFO => 13,
            DNSType::MX => 15,
            DNSType::TXT => 16,
            DNSType::AAAA => 28,
            DNSType::SRV => 33,
            DNSType::OPT => 41,
            DNSType::AXFR => 252,
            DNSType::MAILB => 253,
            DNSType::MAILA => 254,
            DNSType::ASTERISK => 255,
        }
    }

    pub open spec fn spec_from(value: u16) -> DNSType {
        if value == 1 {
            DNSType::A
        } else if value == 2 {
            DNSType::NS
        } else if value == 5 {
            DNSType::CNAME
        } else if value == 6 {
            DNSType::SOA
        } else if value == 12 {
            DNSType::PTR
        } else if value == 13 {
            DNSType::HINFO
        } else if value == 15 {
            DNSType::MX
        } else if value == 16 {
            DNSType::TXT
        } else if value == 28 {
            DNSType::AAAA
        } else if value == 33 {
            DNSType::SRV
        } else if value == 41 {
            DNSType::OPT
        } else if value == 252 {
            DNSType::AXFR
        } else if value == 253 {
            DNSType::MAILB
        } else if value == 254 {
            DNSType::MAILA
        } else {
            DNSType::ASTERISK
        }
    }

    pub fn from(value: u16) -> (r: DNSType)
        ensures
            r == DNSType::spec_from(value),
    {
        match value {
            1 => DNSType::A,
            2 => DNSType::NS,
            5 => DNSType::CNAME,
            6 => DNSType::SOA,
            12 => DNSType::PTR,
            13 => DNSType::HINFO,
            15 => DNSType::MX,
            16 => DNSType::TXT,
            28 => DNSType::AAAA,
            33 => DNSType::SRV,
            41 => DNSType::OPT,
            252 => DNSType::AXFR,
            253 => DNSType::MAILB,
            254 => DNSType::MAILA,
            _ => DNSType::ASTERISK,
        }
    }

    pub fn to_num(&self) -> (r: u16)
        ensures
            r == self.spec_num(),
    {
        match *self {
            DNSType::A => 1,
            DNSType::NS => 2,
            DNSType::CNAME => 5,
            DNSType::SOA => 6,
            DNSType::PTR => 12,
            DNSType::HINFO => 13,
            DNSType::MX => 15,
            DNSType::TXT => 16,
            DNSType::AAAA => 28,
            DNSType::SRV => 33,
            DNSType::OPT => 41,
            DNSType::AXFR => 252,
            DNSType::MAILB => 253,
            DNSType::MAILA => 254,
            DNSType::ASTERISK => 255,
        }
    }
}

impl Default for DNSType {
    fn default() -> (r: Self)
        ensures
            r == DNSType::A,
    {
        DNSType::A
    }
}

} // verus!
