use vstd::prelude::*;

verus! {

/// Record and question classes; every code besides the four assigned
/// ones reads back as `ASTERISK`.
#[derive(PartialEq, Eq, Structural, Clone, Copy, Debug)]
pub enum QueryClass {
    IN,
    CS,
    CH,
    HS,
    ASTERISK,
}

impl QueryClass {
    pub open spec fn spec_num(self) -> u16 {
        match self {
            QueryClass::IN => 1,
            QueryClass::CS => 2,
            QueryClass::CH => 3,
            QueryClass::HS => 4,
            QueryClass::ASTERISK => 255,
        }
    }

    pub open spec fn spec_from(value: u16) -> QueryClass {
        if value == 1 {
            QueryClass::IN
        } else if value == 2 {
            QueryClass::CS
        } else if value == 3 {
            QueryClass::CH
        } else if value == 4 {
            QueryClass::HS
        } else {
            QueryClass::ASTERISK
        }
    }

    pub fn from(value: u16) -> (r: Self)
        ensures
            r == QueryClass::spec_from(value),
    {
        match value {
            1 => QueryClass::IN,
            2 => QueryClass::CS,
            3 => QueryClass::CH,
            4 => QueryClass::HS,
            _ => QueryClass::ASTERISK,
        }
    }

    pub fn to_num(&self) -> (r: u16)
        ensures
            r == self.spec_num(),
    {
        match *self {
            QueryClass::IN => 1,
            QueryClass::CS => 2,
            QueryClass::CH => 3,
            QueryClass::HS => 4,
            QueryClass::ASTERISK => 255,
        }
    }
}

impl Default for QueryClass {
    fn default() -> (r: Self)
        ensures
            r == QueryClass::IN,
    {
        QueryClass::IN
    }
}

} // verus!
