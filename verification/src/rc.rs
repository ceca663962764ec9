//! The four-bit DNS response code carried in the header's second flags
//! byte.

use vstd::prelude::*;

verus! {

/// The response codes this resolver distinguishes; every other four-bit
/// value decodes as `NOERROR`.
#[derive(Copy, Clone, Debug, PartialEq, Eq, Hash, Structural)]
pub enum ResultCode {
    NOERROR,
    FORMERR,
    SERVFAIL,
    NXDOMAIN,
    NOTIMP,
    REFUSED,
}

impl ResultCode {
    /// The code a four-bit wire value decodes to.
    pub open spec fn spec_from_num(num: u8) -> ResultCode {
        if num == 1 {
            ResultCode::FORMERR
        } else if num == 2 {
            ResultCode::SERVFAIL
        } else if num == 3 {
            ResultCode::NXDOMAIN
        } else if num == 4 {
            ResultCode::NOTIMP
        } else if num == 5 {
            ResultCode::REFUSED
        } else {
            ResultCode::NOERROR
        }
    }

    /// The wire value a code encodes to.
    pub open spec fn spec_to_num(self) -> u8 {
        match self {
            ResultCode::NOERROR => 0,
            ResultCode::FORMERR => 1,
            ResultCode::SERVFAIL => 2,
            ResultCode::NXDOMAIN => 3,
            ResultCode::NOTIMP => 4,
            ResultCode::REFUSED => 5,
        }
    }

    /// Decode a four-bit wire value; unknown values fall back to `NOERROR`.
    pub fn from_num(num: u8) -> (r: ResultCode)
        ensures
            r == ResultCode::spec_from_num(num),
    {
        match num {
            1 => ResultCode::FORMERR,
            2 => ResultCode::SERVFAIL,
            3 => ResultCode::NXDOMAIN,
            4 => ResultCode::NOTIMP,
            5 => ResultCode::REFUSED,
            _ => ResultCode::NOERROR,
        }
    }

    /// Encode the code as its wire value.
    pub fn to_num(self) -> (r: u8)
        ensures
            r == self.spec_to_num(),
            r < 16,
    {
        match self {
            ResultCode::NOERROR => 0,
            ResultCode::FORMERR => 1,
            ResultCode::SERVFAIL => 2,
            ResultCode::NXDOMAIN => 3,
            ResultCode::NOTIMP => 4,
            ResultCode::REFUSED => 5,
        }
    }
}

/// Encoding a response code and decoding it gives the code back.
pub proof fn lemma_rescode_roundtrip(rc: ResultCode)
    ensures
        ResultCode::spec_from_num(rc.spec_to_num()) == rc,
{
}

} // verus!
