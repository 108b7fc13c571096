//! The codec's error taxonomy. Every kind is distinguishable: `NotComplete`
//! is not a fault but a request for more bytes; the others are terminal for
//! the current parse attempt.
use vstd::prelude::*;

verus! {

use vstd::string::StringExecFns;

use crate::wire::DecodeResult;
use crate::wire::LenResult;

/// What can go wrong while framing or decoding.
#[derive(Debug, PartialEq)]
pub enum RespError {
    /// A whole-input parse attempt failed (framing surface).
    InvalidFrame(String),
    /// No frame marker at the expected position.
    InvalidFrameType(String),
    /// A declared length or count violates its type's minimum.
    InvalidFrameLength(i64),
    /// Well-formed length, but the content fails a structural check.
    InvalidFrameData(String),
    /// Not enough bytes yet; retry after more input arrives.
    NotComplete,
    /// A frame-level parse error reported by the whole-frame parser.
    ParseError,
}

/// The error that the length oracle reports for each non-complete answer.
pub open spec fn len_err_matches(e: RespError, lr: LenResult) -> bool {
    match lr {
        LenResult::Complete(_) => false,
        LenResult::Partial => e == RespError::NotComplete,
        LenResult::BadType => e is InvalidFrameType,
        LenResult::BadLen(n) => e == RespError::InvalidFrameLength(n as i64),
        LenResult::BadData => e is InvalidFrameData,
    }
}

/// The error that the decoder reports for each non-frame answer.
pub open spec fn decode_err_matches(e: RespError, dr: DecodeResult) -> bool {
    match dr {
        DecodeResult::Frame(_, _) => false,
        DecodeResult::Partial => e == RespError::NotComplete,
        DecodeResult::BadType => e is InvalidFrameType,
        DecodeResult::BadLen(n) => e == RespError::InvalidFrameLength(n as i64),
        DecodeResult::BadData => e is InvalidFrameData,
    }
}

impl RespError {
    /// A human-readable description of the error.
    pub fn message(&self) -> (r: String)
        ensures
            *self is NotComplete ==> r@ == "Frame is not complete"@,
    {
        match self {
            RespError::InvalidFrame(m) => String::from_str("Invalid frame: ").concat(m.as_str()),
            RespError::InvalidFrameType(m) => String::from_str("Invalid frame type: ").concat(
                m.as_str(),
            ),
            RespError::InvalidFrameLength(_) => String::from_str("Invalid frame length"),
            RespError::InvalidFrameData(m) => String::from_str("Invalid frame data: ").concat(
                m.as_str(),
            ),
            RespError::NotComplete => String::from_str("Frame is not complete"),
            RespError::ParseError => String::from_str("Parse error"),
        }
    }
}

} // verus!
