use vstd::prelude::*;

verus! {

/// The response codes of the header's rcode field.
#[derive(Copy, Clone, Debug, PartialEq, Eq, Structural)]
pub enum ResultCode {
    NOERROR,
    FORMERR,
    SERVFAIL,
    NXDOMAIN,
    NOTIMP,
    REFUSED,
    YXDOMAIN,
    XRRSET,
    NOTAUTH,
    NOTZONE,
}

impl ResultCode {
    pub open spec fn spec_num(self) -> u8 {
        match self {
            ResultCode::NOERROR => 0,
            ResultCode::FORMERR => 1,
            ResultCode::SERVFAIL => 2,
            ResultCode::NXDOMAIN => 3,
            ResultCode::NOTIMP => 4,
            ResultCode::REFUSED => 5,
            ResultCode::YXDOMAIN => 6,
            ResultCode::XRRSET => 7,
            ResultCode::NOTAUTH => 8,
            ResultCode::NOTZONE => 9,
        }
    }

    /// Codes above the assigned range read back as `NOERROR`.
    pub open spec fn spec_from(value: u8) -> ResultCode {
        if value == 1 {
            ResultCode::FORMERR
        } else if value == 2 {
            ResultCode::SERVFAIL
        } else if value == 3 {
            ResultCode::NXDOMAIN
        } else if value == 4 {
            ResultCode::NOTIMP
        } else if value == 5 {
            ResultCode::REFUSED
        } else if value == 6 {
            ResultCode::YXDOMAIN
        } else if value == 7 {
            ResultCode::XRRSET
        } else if value == 8 {
            ResultCode::NOTAUTH
        } else if value == 9 {
            ResultCode::NOTZONE
        } else {
            ResultCode::NOERROR
        }
    }

    pub fn from(value: u8) -> (r: ResultCode)
        ensures
            r == ResultCode::spec_from(value),
    {
        match value {
            1 => ResultCode::FORMERR,
            2 => ResultCode::SERVFAIL,
            3 => ResultCode::NXDOMAIN,
            4 => ResultCode::NOTIMP,
            5 => ResultCode::REFUSED,
            6 => ResultCode::YXDOMAIN,
            7 => ResultCode::XRRSET,
            8 => ResultCode::NOTAUTH,
            9 => ResultCode::NOTZONE,
            _ => ResultCode::NOERROR,
        }
    }

    pub fn to_u8(&self) -> (r: u8)
        ensures
            r == self.spec_num(),
    {
        match *self {
            ResultCode::NOERROR => 0,
            ResultCode::FORMERR => 1,
            ResultCode::SERVFAIL => 2,
            ResultCode::NXDOMAIN => 3,
            ResultCode::NOTIMP => 4,
            ResultCode::REFUSED => 5,
            ResultCode::YXDOMAIN => 6,
            ResultCode::XRRSET => 7,
            ResultCode::NOTAUTH => 8,
            ResultCode::NOTZONE => 9,
        }
    }
}

} // verus!
