use vstd::prelude::*;

verus! {

/// The same class table as `QueryClass`, under its alternate name.
#[derive(PartialEq, Eq, Structural, Clone, Copy, Debug)]
pub enum DNSClass {
    IN,
    CS,
    CH,
    HS,
    ASTERISK,
}

impl DNSClass {
    pub open spec fn spec_num(self) -> u16 {
        match self {
            DNSClass::IN => 1,
            DNSClass::CS => 2,
            DNSClass::CH => 3,
            DNSClass::HS => 4,
            DNSClass::ASTERISK => 255,
        }
    }

    pub open spec fn spec_from(value: u16) -> DNSClass {
        if value == 1 {
            DNSClass::IN
        } else if value == 2 {
            DNSClass::CS
        } else if value == 3 {
            DNSClass::CH
        } else if value == 4 {
            DNSClass::HS
        } else {
            DNSClass::ASTERISK
        }
    }

    pub fn from(value: u16) -> (r: Self)
        ensures
            r == DNSClass::spec_from(value),
    {
        match value {
            1 => DNSClass::IN,
            2 => DNSClass::CS,
            3 => DNSClass::CH,
            4 => DNSClass::HS,
            _ => DNSClass::ASTERISK,
        }
    }

    pub fn to_num(&self) -> (r: u16)
        ensures
            r == self.spec_num(),
    {
        match *self {
            DNSClass::IN => 1,
            DNSClass::CS => 2,
            DNSClass::CH => 3,
            DNSClass::HS => 4,
            DNSClass::ASTERISK => 255,
        }
    }
}

impl Default for DNSClass {
    fn default() -> (r: Self)
        ensures
            r == DNSClass::IN,
    {
        DNSClass::IN
    }
}

} // verus!
