//! The response codes that the server answers with in place of data.

use crate::decimal::{parse_u64, read_u64};
use vstd::prelude::*;
use vstd::string::StringSliceAdditionalSpecFns;

verus! {

/// A response code. On the wire it is a small decimal number; the codes that
/// this client knows have a variant each, and any other number is kept as it
/// came in [`RespCode::Unknown`], so a newer server does not break decoding.
#[derive(Clone, Copy, Debug, PartialEq, Eq)]
pub enum RespCode {
    /// `0`: the action succeeded.
    Okay,
    /// `1`: the key does not exist.
    NotFound,
    /// `2`: the key exists already.
    OverwriteError,
    /// `3`: the action was not used as it is meant to be.
    ActionError,
    /// `4`: the server could not read the query packet.
    PacketError,
    /// `5`: the server failed while it ran the action.
    ServerError,
    /// `6`: some other error.
    OtherError,
    /// A code outside the known set, with its number.
    Unknown(u64),
}

impl RespCode {
    /// The response code that stands for the number `code`.
    pub open spec fn of_code(code: u64) -> RespCode {
        if code == 0 {
            RespCode::Okay
        } else if code == 1 {
            RespCode::NotFound
        } else if code == 2 {
            RespCode::OverwriteError
        } else if code == 3 {
            RespCode::ActionError
        } else if code == 4 {
            RespCode::PacketError
        } else if code == 5 {
            RespCode::ServerError
        } else if code == 6 {
            RespCode::OtherError
        } else {
            RespCode::Unknown(code)
        }
    }

    /// The number that stands for this response code on the wire.
    pub open spec fn spec_code(&self) -> u64 {
        match *self {
            RespCode::Okay => 0,
            RespCode::NotFound => 1,
            RespCode::OverwriteError => 2,
            RespCode::ActionError => 3,
            RespCode::PacketError => 4,
            RespCode::ServerError => 5,
            RespCode::OtherError => 6,
            RespCode::Unknown(code) => code,
        }
    }

    /// The response code that the payload text `s` denotes, if it denotes a
    /// number at all.
    pub open spec fn of_text(s: Seq<u8>) -> Option<RespCode> {
        match parse_u64(s) {
            Some(code) => Some(RespCode::of_code(code)),
            None => None,
        }
    }

    /// Maps a number to its response code.
    pub fn from_code(code: u64) -> (r: RespCode)
        ensures
            r == RespCode::of_code(code),
            r.spec_code() == code,
    {
        match code {
            0 => RespCode::Okay,
            1 => RespCode::NotFound,
            2 => RespCode::OverwriteError,
            3 => RespCode::ActionError,
            4 => RespCode::PacketError,
            5 => RespCode::ServerError,
            6 => RespCode::OtherError,
            _ => RespCode::Unknown(code),
        }
    }

    /// The number of this response code.
    #[verifier::when_used_as_spec(spec_code)]
    pub fn code(&self) -> (n: u64)
        ensures
            n == self.spec_code(),
    {
        match self {
            RespCode::Okay => 0,
            RespCode::NotFound => 1,
            RespCode::OverwriteError => 2,
            RespCode::ActionError => 3,
            RespCode::PacketError => 4,
            RespCode::ServerError => 5,
            RespCode::OtherError => 6,
            RespCode::Unknown(code) => *code,
        }
    }

    /// Reads a payload as a response code. `None` means that the payload is
    /// not the text of a 64-bit unsigned number.
    pub fn from_bytes(payload: &[u8]) -> (r: Option<RespCode>)
        ensures
            r == RespCode::of_text(payload@),
    {
        match read_u64(payload) {
            Some(code) => Some(RespCode::from_code(code)),
            None => None,
        }
    }

    /// Reads a string as a response code, as [`RespCode::from_bytes`] reads
    /// its bytes.
    pub fn from_str(val: &str) -> (r: Option<RespCode>)
        ensures
            r == RespCode::of_text(val.spec_bytes()),
    {
        RespCode::from_bytes(val.as_bytes())
    }
}

} // verus!
