//! The connection-facing codec: decoding consumes exactly one frame's worth
//! of bytes from the front of a buffer (or nothing, when the bytes are not
//! complete yet), encoding appends a frame's exact serialization.
use vstd::prelude::*;

verus! {

use vstd::string::StringExecFns;

use crate::bytesbuf::bm_contents;
use crate::bytesbuf::bm_slice;
use crate::bytesbuf::bm_split_to;
use crate::decode::parse_at;
use crate::error::RespError;
use crate::error::decode_err_matches;
use crate::error::len_err_matches;
use crate::frame::BulkString;
use crate::frame::RespArray;
use crate::frame::RespFrame;
use crate::frame::RespMap;
use crate::frame::RespNull;
use crate::frame::RespSet;
use crate::frame::SimpleError;
use crate::frame::SimpleString;
use crate::frame::frame_view;
use crate::length::len_from;
use crate::length::find_crlf_at;
use crate::textfmt::debug_string;
use crate::textfmt::lossy_text;
use crate::textfmt::lossy_string;
use crate::wire::DecodeResult;
use crate::wire::LenResult;
use crate::wire::MARK_ARRAY;
use crate::wire::MARK_BULK;
use crate::wire::MARK_ERROR;
use crate::wire::MARK_MAP;
use crate::wire::MARK_NULL;
use crate::wire::MARK_SET;
use crate::wire::MARK_SIMPLE;
use crate::wire::decode_of;
use crate::wire::first_crlf_from;
use crate::wire::len_of;

/// What one decoding step does to a buffer holding `b`: when the length
/// oracle knows a complete frame of `n` bytes, exactly those `n` bytes
/// leave the buffer and the result is the decoded frame (or the decoder's
/// error for those bytes); otherwise the buffer is untouched and the
/// oracle's error comes back.
pub open spec fn decode_step(b: Seq<u8>, r: Result<RespFrame, RespError>, after: Seq<u8>) -> bool {
    match len_of(b) {
        LenResult::Complete(n) => after == b.skip(n) && (match decode_of(b) {
            DecodeResult::Frame(fv, _) => match r {
                Ok(f) => frame_view(f) == fv,
                Err(_) => false,
            },
            dr => match r {
                Ok(_) => false,
                Err(e) => decode_err_matches(e, dr),
            },
        }),
        lr => after == b && (match r {
            Ok(_) => false,
            Err(e) => len_err_matches(e, lr),
        }),
    }
}

/// Decodes the first complete frame out of `buf`, consuming exactly the
/// bytes the length oracle reports for it and no others; with an
/// incomplete buffer nothing is consumed and `NotComplete` comes back, so
/// the caller can retry after more input arrives.
fn decode_step_exec(buf: &mut bytes::BytesMut) -> (r: Result<RespFrame, RespError>)
    ensures
        decode_step(bm_contents(*old(buf)), r, bm_contents(*final (buf))),
{
    let ghost b = bm_contents(*old(buf));
    let slice = bm_slice(buf);
    proof {
        assert(slice@.skip(0) =~= slice@);
    }
    let n = match len_from(slice, 0) {
        Err(e) => {
            return Err(e);
        },
        Ok(n) => n,
    };
    let r = parse_at(slice, 0);
    let _taken = bm_split_to(buf, n);
    match r {
        Ok((f, _)) => Ok(f),
        Err(e) => Err(e),
    }
}

impl RespFrame {
    /// Decodes one frame from the front of the buffer. Consumes exactly
    /// the first complete frame's bytes; on `NotComplete` (and on errors
    /// found before a complete frame is delimited) the buffer is unchanged.
    pub fn decode(buf: &mut bytes::BytesMut) -> (r: Result<RespFrame, RespError>)
        ensures
            decode_step(bm_contents(*old(buf)), r, bm_contents(*final (buf))),
    {
        decode_step_exec(buf)
    }

    /// How many bytes the first complete frame of `buf` takes.
    pub fn expect_length(buf: &[u8]) -> (r: Result<usize, RespError>)
        ensures
            match r {
                Ok(n) => len_of(buf@) == LenResult::Complete(n as int),
                Err(e) => len_err_matches(e, len_of(buf@)),
            },
    {
        proof {
            assert(buf@.skip(0) =~= buf@);
        }
        len_from(buf, 0)
    }
}

/// The marker-checked decode that every concrete frame type shares: fails
/// with `InvalidFrameType`, consuming nothing, unless the buffer starts
/// with this type's marker; then decodes one frame as `RespFrame::decode`
/// does.
fn decode_marked(buf: &mut bytes::BytesMut, marker: u8) -> (r: Result<RespFrame, RespError>)
    ensures
        ({
            let b = bm_contents(*old(buf));
            if b.len() == 0 || b[0] != marker {
                &&& bm_contents(*final (buf)) == b
                &&& match r {
                    Ok(_) => false,
                    Err(e) => e is InvalidFrameType,
                }
            } else {
                decode_step(b, r, bm_contents(*final (buf)))
            }
        }),
{
    let good = {
        let slice = bm_slice(buf);
        slice.len() > 0 && slice[0] == marker
    };
    if !good {
        let msg = {
            let slice = bm_slice(buf);
            String::from_str("unexpected frame marker: ").concat(debug_string(slice).as_str())
        };
        return Err(RespError::InvalidFrameType(msg));
    }
    decode_step_exec(buf)
}

impl SimpleString {
    /// Decodes a simple string frame from the front of the buffer.
    pub fn decode(buf: &mut bytes::BytesMut) -> (r: Result<SimpleString, RespError>)
        ensures
            ({
                let b = bm_contents(*old(buf));
                if b.len() == 0 || b[0] != MARK_SIMPLE {
                    bm_contents(*final (buf)) == b && (match r {
                        Ok(_) => false,
                        Err(e) => e is InvalidFrameType,
                    })
                } else {
                    decode_step(
                        b,
                        match r {
                            Ok(s) => Ok(RespFrame::SimpleString(s)),
                            Err(e) => Err(e),
                        },
                        bm_contents(*final (buf)),
                    )
                }
            }),
    {
        match decode_marked(buf, MARK_SIMPLE) {
            Err(e) => Err(e),
            Ok(f) => match f {
                RespFrame::SimpleString(s) => Ok(s),
                _ => {
                    proof {
                        crate::wire::lemma_decode_of_variant(bm_contents(*old(buf)));
                        assert(false);
                    }
                    Err(RespError::ParseError)
                },
            },
        }
    }

    /// How many bytes the first frame takes: for a line frame, up to and
    /// including the first CRLF.
    pub fn expect_length(buf: &[u8]) -> (r: Result<usize, RespError>)
        ensures
            match first_crlf_from(buf@, 0) {
                Some(p) => r == Ok::<usize, RespError>((p + 2) as usize),
                None => r == Err::<usize, RespError>(RespError::NotComplete),
            },
    {
        line_length(buf)
    }
}

/// The length of a line frame: up to and including the first CRLF.
fn line_length(buf: &[u8]) -> (r: Result<usize, RespError>)
    ensures
        match first_crlf_from(buf@, 0) {
            Some(p) => r == Ok::<usize, RespError>((p + 2) as usize),
            None => r == Err::<usize, RespError>(RespError::NotComplete),
        },
{
    let blen = buf.len();
    proof {
        assert(buf@.len() <= usize::MAX);
        crate::wire::lemma_first_crlf_bounds(buf@, 0);
    }
    match find_crlf_at(buf, 0) {
        Some(p) => {
            proof {
                match first_crlf_from(buf@, 0) {
                    Some(sp) => {
                        assert(p as int == sp);
                        assert(sp + 2 <= buf@.len());
                    },
                    None => {
                        assert(false);
                    },
                }
            }
            Ok(p + 2)
        },
        None => Err(RespError::NotComplete),
    }
}

impl SimpleError {
    /// Decodes a simple error frame from the front of the buffer.
    pub fn decode(buf: &mut bytes::BytesMut) -> (r: Result<SimpleError, RespError>)
        ensures
            ({
                let b = bm_contents(*old(buf));
                if b.len() == 0 || b[0] != MARK_ERROR {
                    bm_contents(*final (buf)) == b && (match r {
                        Ok(_) => false,
                        Err(e) => e is InvalidFrameType,
                    })
                } else {
                    decode_step(
                        b,
                        match r {
                            Ok(s) => Ok(RespFrame::SimpleError(s)),
                            Err(e) => Err(e),
                        },
                        bm_contents(*final (buf)),
                    )
                }
            }),
    {
        match decode_marked(buf, MARK_ERROR) {
            Err(e) => Err(e),
            Ok(f) => match f {
                RespFrame::SimpleError(s) => Ok(s),
                _ => {
                    proof {
                        crate::wire::lemma_decode_of_variant(bm_contents(*old(buf)));
                        assert(false);
                    }
                    Err(RespError::ParseError)
                },
            },
        }
    }

    /// How many bytes the first frame takes (a line frame).
    pub fn expect_length(buf: &[u8]) -> (r: Result<usize, RespError>)
        ensures
            match first_crlf_from(buf@, 0) {
                Some(p) => r == Ok::<usize, RespError>((p + 2) as usize),
                None => r == Err::<usize, RespError>(RespError::NotComplete),
            },
    {
        line_length(buf)
    }
}

impl RespNull {
    /// Decodes the null frame from the front of the buffer.
    pub fn decode(buf: &mut bytes::BytesMut) -> (r: Result<RespNull, RespError>)
        ensures
            ({
                let b = bm_contents(*old(buf));
                if b.len() == 0 || b[0] != MARK_NULL {
                    bm_contents(*final (buf)) == b && (match r {
                        Ok(_) => false,
                        Err(e) => e is InvalidFrameType,
                    })
                } else {
                    decode_step(
                        b,
                        match r {
                            Ok(n) => Ok(RespFrame::Null(n)),
                            Err(e) => Err(e),
                        },
                        bm_contents(*final (buf)),
                    )
                }
            }),
    {
        match decode_marked(buf, MARK_NULL) {
            Err(e) => Err(e),
            Ok(f) => match f {
                RespFrame::Null(n) => Ok(n),
                _ => {
                    proof {
                        crate::wire::lemma_decode_of_variant(bm_contents(*old(buf)));
                        assert(false);
                    }
                    Err(RespError::ParseError)
                },
            },
        }
    }

    /// How many bytes the first frame takes (a line frame).
    pub fn expect_length(buf: &[u8]) -> (r: Result<usize, RespError>)
        ensures
            match first_crlf_from(buf@, 0) {
                Some(p) => r == Ok::<usize, RespError>((p + 2) as usize),
                None => r == Err::<usize, RespError>(RespError::NotComplete),
            },
    {
        line_length(buf)
    }
}

impl BulkString {
    /// Decodes a bulk string frame from the front of the buffer.
    pub fn decode(buf: &mut bytes::BytesMut) -> (r: Result<BulkString, RespError>)
        ensures
            ({
                let b = bm_contents(*old(buf));
                if b.len() == 0 || b[0] != MARK_BULK {
                    bm_contents(*final (buf)) == b && (match r {
                        Ok(_) => false,
                        Err(e) => e is InvalidFrameType,
                    })
                } else {
                    decode_step(
                        b,
                        match r {
                            Ok(s) => Ok(RespFrame::BulkString(s)),
                            Err(e) => Err(e),
                        },
                        bm_contents(*final (buf)),
                    )
                }
            }),
    {
        match decode_marked(buf, MARK_BULK) {
            Err(e) => Err(e),
            Ok(f) => match f {
                RespFrame::BulkString(s) => Ok(s),
                _ => {
                    proof {
                        crate::wire::lemma_decode_of_variant(bm_contents(*old(buf)));
                        assert(false);
                    }
                    Err(RespError::ParseError)
                },
            },
        }
    }

    /// How many bytes the first frame takes, assuming a bulk string frame:
    /// the count line, then the declared bytes and their CRLF.
    pub fn expect_length(buf: &[u8]) -> (r: Result<usize, RespError>)
        ensures
            buf@.len() > 0 && buf@[0] == MARK_BULK ==> match r {
                Ok(n) => len_of(buf@) == LenResult::Complete(n as int),
                Err(e) => len_err_matches(e, len_of(buf@)),
            },
    {
        proof {
            assert(buf@.skip(0) =~= buf@);
        }
        len_from(buf, 0)
    }
}

impl RespArray {
    /// Decodes an array frame from the front of the buffer.
    pub fn decode(buf: &mut bytes::BytesMut) -> (r: Result<RespArray, RespError>)
        ensures
            ({
                let b = bm_contents(*old(buf));
                if b.len() == 0 || b[0] != MARK_ARRAY {
                    bm_contents(*final (buf)) == b && (match r {
                        Ok(_) => false,
                        Err(e) => e is InvalidFrameType,
                    })
                } else {
                    decode_step(
                        b,
                        match r {
                            Ok(a) => Ok(RespFrame::Array(a)),
                            Err(e) => Err(e),
                        },
                        bm_contents(*final (buf)),
                    )
                }
            }),
    {
        match decode_marked(buf, MARK_ARRAY) {
            Err(e) => Err(e),
            Ok(f) => match f {
                RespFrame::Array(a) => Ok(a),
                _ => {
                    proof {
                        crate::wire::lemma_decode_of_variant(bm_contents(*old(buf)));
                        assert(false);
                    }
                    Err(RespError::ParseError)
                },
            },
        }
    }

    /// How many bytes the first frame takes, assuming an array frame.
    pub fn expect_length(buf: &[u8]) -> (r: Result<usize, RespError>)
        ensures
            buf@.len() > 0 && buf@[0] == MARK_ARRAY ==> match r {
                Ok(n) => len_of(buf@) == LenResult::Complete(n as int),
                Err(e) => len_err_matches(e, len_of(buf@)),
            },
    {
        proof {
            assert(buf@.skip(0) =~= buf@);
        }
        len_from(buf, 0)
    }
}

impl RespMap {
    /// Decodes a map frame from the front of the buffer; entries come out
    /// sorted by key, a repeated key keeping its last value.
    pub fn decode(buf: &mut bytes::BytesMut) -> (r: Result<RespMap, RespError>)
        ensures
            ({
                let b = bm_contents(*old(buf));
                if b.len() == 0 || b[0] != MARK_MAP {
                    bm_contents(*final (buf)) == b && (match r {
                        Ok(_) => false,
                        Err(e) => e is InvalidFrameType,
                    })
                } else {
                    decode_step(
                        b,
                        match r {
                            Ok(m) => Ok(RespFrame::MapFrame(m)),
                            Err(e) => Err(e),
                        },
                        bm_contents(*final (buf)),
                    )
                }
            }),
    {
        match decode_marked(buf, MARK_MAP) {
            Err(e) => Err(e),
            Ok(f) => match f {
                RespFrame::MapFrame(m) => Ok(m),
                _ => {
                    proof {
                        crate::wire::lemma_decode_of_variant(bm_contents(*old(buf)));
                        assert(false);
                    }
                    Err(RespError::ParseError)
                },
            },
        }
    }

    /// How many bytes the first frame takes, assuming a map frame.
    pub fn expect_length(buf: &[u8]) -> (r: Result<usize, RespError>)
        ensures
            buf@.len() > 0 && buf@[0] == MARK_MAP ==> match r {
                Ok(n) => len_of(buf@) == LenResult::Complete(n as int),
                Err(e) => len_err_matches(e, len_of(buf@)),
            },
    {
        proof {
            assert(buf@.skip(0) =~= buf@);
        }
        len_from(buf, 0)
    }
}

impl RespSet {
    /// Decodes a set frame from the front of the buffer; elements come out
    /// sorted by their encoded byte form, duplicates dropped.
    pub fn decode(buf: &mut bytes::BytesMut) -> (r: Result<RespSet, RespError>)
        ensures
            ({
                let b = bm_contents(*old(buf));
                if b.len() == 0 || b[0] != MARK_SET {
                    bm_contents(*final (buf)) == b && (match r {
                        Ok(_) => false,
                        Err(e) => e is InvalidFrameType,
                    })
                } else {
                    decode_step(
                        b,
                        match r {
                            Ok(s) => Ok(RespFrame::SetFrame(s)),
                            Err(e) => Err(e),
                        },
                        bm_contents(*final (buf)),
                    )
                }
            }),
    {
        match decode_marked(buf, MARK_SET) {
            Err(e) => Err(e),
            Ok(f) => match f {
                RespFrame::SetFrame(s) => Ok(s),
                _ => {
                    proof {
                        crate::wire::lemma_decode_of_variant(bm_contents(*old(buf)));
                        assert(false);
                    }
                    Err(RespError::ParseError)
                },
            },
        }
    }

    /// How many bytes the first frame takes, assuming a set frame.
    pub fn expect_length(buf: &[u8]) -> (r: Result<usize, RespError>)
        ensures
            buf@.len() > 0 && buf@[0] == MARK_SET ==> match r {
                Ok(n) => len_of(buf@) == LenResult::Complete(n as int),
                Err(e) => len_err_matches(e, len_of(buf@)),
            },
    {
        proof {
            assert(buf@.skip(0) =~= buf@);
        }
        len_from(buf, 0)
    }
}

/// Reports how many bytes the first complete frame of the input takes:
/// `NotComplete` while the bytes are still consistent with a frame, and
/// `InvalidFrame` (carrying the lossy text of the whole input) once no
/// completion can form one.
pub fn parse_frame_length(buf: &[u8]) -> (r: Result<usize, RespError>)
    ensures
        match r {
            Ok(n) => len_of(buf@) == LenResult::Complete(n as int),
            Err(e) => match len_of(buf@) {
                LenResult::Complete(_) => false,
                LenResult::Partial => e == RespError::NotComplete,
                _ => match e {
                    RespError::InvalidFrame(m) => m@ == lossy_text(buf@),
                    _ => false,
                },
            },
        },
{
    proof {
        assert(buf@.skip(0) =~= buf@);
    }
    match len_from(buf, 0) {
        Ok(n) => Ok(n),
        Err(RespError::NotComplete) => Err(RespError::NotComplete),
        Err(_) => Err(RespError::InvalidFrame(lossy_string(buf))),
    }
}

/// Parses the first complete frame of the input.
pub fn parse_frame(input: &[u8]) -> (r: Result<RespFrame, RespError>)
    ensures
        match r {
            Ok(f) => match decode_of(input@) {
                DecodeResult::Frame(fv, _) => frame_view(f) == fv,
                _ => false,
            },
            Err(e) => decode_err_matches(e, decode_of(input@)),
        },
{
    proof {
        assert(input@.skip(0) =~= input@);
    }
    match parse_at(input, 0) {
        Ok((f, _)) => Ok(f),
        Err(e) => Err(e),
    }
}

/// The stream framer: encodes outbound frames onto a write buffer and
/// extracts at most one complete inbound frame per call.
pub struct RespFrameCodec;

impl RespFrameCodec {
    /// Serializes `item` and appends its bytes to `dst`.
    pub fn encode(&mut self, item: RespFrame, dst: &mut bytes::BytesMut)
        ensures
            bm_contents(*final (dst)) == bm_contents(*old(dst)) + crate::wire::encode_spec(
                item@,
            ),
    {
        let encoded = crate::encode::encode_frame(&item);
        crate::bytesbuf::bm_extend(dst, encoded.as_slice());
    }

    /// Tries to decode one frame from `src`: `Ok(None)` when more bytes
    /// are needed (buffer untouched), `Ok(Some(frame))` when a complete
    /// frame was consumed, and the decode error otherwise.
    pub fn decode(&mut self, src: &mut bytes::BytesMut) -> (r: Result<Option<RespFrame>, RespError>)
        ensures
            ({
                let b = bm_contents(*old(src));
                match r {
                    Ok(Some(f)) => decode_step(b, Ok(f), bm_contents(*final (src))),
                    Ok(None) => len_of(b) == LenResult::Partial && bm_contents(*final (src)) == b,
                    Err(e) => decode_step(b, Err(e), bm_contents(*final (src))) && !(e
                        is NotComplete),
                }
            }),
    {
        proof {
            crate::wire::lemma_decode_len_agree(bm_contents(*old(src)));
        }
        match RespFrame::decode(src) {
            Ok(frame) => Ok(Some(frame)),
            Err(RespError::NotComplete) => Ok(None),
            Err(e) => Err(e),
        }
    }
}

} // verus!
