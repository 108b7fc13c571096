//! The wire grammar, stated once, mathematically: what the byte encoding of
//! every frame is, how far the first complete frame of a byte sequence
//! extends (the length oracle), and what value it decodes to. Every
//! executable codec function is verified against the functions in this
//! module.
use vstd::prelude::*;

verus! {

use crate::digits::all_digits;
use crate::digits::dec_int;
use crate::digits::spec_parse_i64;
use crate::frame::FrameV;
use crate::order::lex_lt;

/// The frame terminator.
pub open spec fn crlf() -> Seq<u8> {
    seq![13u8, 10u8]
}

/// The type markers: `+` `-` `:` `$` `*` `_` `#` `,` `%` `~`.
pub const MARK_SIMPLE: u8 = 0x2b;

pub const MARK_ERROR: u8 = 0x2d;

pub const MARK_INT: u8 = 0x3a;

pub const MARK_BULK: u8 = 0x24;

pub const MARK_ARRAY: u8 = 0x2a;

pub const MARK_NULL: u8 = 0x5f;

pub const MARK_BOOL: u8 = 0x23;

pub const MARK_DOUBLE: u8 = 0x2c;

pub const MARK_MAP: u8 = 0x25;

pub const MARK_SET: u8 = 0x7e;

/// Does `b` hold a CRLF pair starting at some position at or after `i`?
/// Yields the first such position.
pub open spec fn first_crlf_from(b: Seq<u8>, i: int) -> Option<int>
    decreases b.len() - i,
{
    if i + 1 >= b.len() {
        None
    } else if b[i] == 13 && b[i + 1] == 10 {
        Some(i)
    } else {
        first_crlf_from(b, i + 1)
    }
}

/// What the length oracle answers for a byte sequence.
pub enum LenResult {
    /// The first complete frame takes exactly this many bytes.
    Complete(int),
    /// The bytes so far are consistent with a frame, but more are needed.
    Partial,
    /// The first byte (or a nested child's first byte) is no frame marker.
    BadType,
    /// A declared count violates its type's minimum.
    BadLen(int),
    /// A count prefix is not decimal text.
    BadData,
}

/// The aggregate header: marker, decimal count, CRLF. Yields the position
/// of the CRLF and the count.
pub open spec fn header_of(b: Seq<u8>) -> Result<(int, int), LenResult> {
    if b.len() < 3 {
        Err(LenResult::Partial)
    } else {
        match first_crlf_from(b, 0) {
            None => Err(LenResult::Partial),
            Some(end) => if 1 <= end && end + 2 <= b.len() {
                match spec_parse_i64(b.subrange(1, end)) {
                    Some(n) => Ok((end, n as int)),
                    None => Err(LenResult::BadData),
                }
            } else {
                // Never reached: the first CRLF of a marked frame lies
                // inside the buffer, past the marker.
                Err(LenResult::BadData)
            },
        }
    }
}

/// How many bytes the first complete frame of `b` takes: the length
/// oracle's mathematical content.
pub open spec fn len_of(b: Seq<u8>) -> LenResult
    decreases b.len(), 0int, 0int,
{
    if b.len() == 0 {
        LenResult::Partial
    } else if b[0] == MARK_SIMPLE || b[0] == MARK_ERROR || b[0] == MARK_INT || b[0] == MARK_NULL
        || b[0] == MARK_BOOL || b[0] == MARK_DOUBLE {
        match first_crlf_from(b, 0) {
            None => LenResult::Partial,
            Some(p) => LenResult::Complete(p + 2),
        }
    } else if b[0] == MARK_BULK {
        match header_of(b) {
            Err(e) => e,
            Ok((end, n)) => if n < -1 {
                LenResult::BadLen(n)
            } else if n == -1 {
                LenResult::Complete(end + 2)
            } else if end + 2 + n + 2 <= b.len() {
                LenResult::Complete(end + 2 + n + 2)
            } else {
                LenResult::Partial
            },
        }
    } else if b[0] == MARK_ARRAY {
        match header_of(b) {
            Err(e) => e,
            Ok((end, n)) => if n < -1 {
                LenResult::BadLen(n)
            } else if n == -1 {
                LenResult::Complete(end + 2)
            } else {
                children_len(b, end + 2, n as nat)
            },
        }
    } else if b[0] == MARK_SET {
        match header_of(b) {
            Err(e) => e,
            Ok((end, n)) => if n < 0 {
                LenResult::BadLen(n)
            } else {
                children_len(b, end + 2, n as nat)
            },
        }
    } else if b[0] == MARK_MAP {
        match header_of(b) {
            Err(e) => e,
            Ok((end, n)) => if n < 0 {
                LenResult::BadLen(n)
            } else {
                children_len(b, end + 2, (2 * n) as nat)
            },
        }
    } else {
        LenResult::BadType
    }
}

/// Where `k` child frames starting at `off` end.
pub open spec fn children_len(b: Seq<u8>, off: int, k: nat) -> LenResult
    decreases b.len() - off, 1int, k,
{
    if k == 0 {
        LenResult::Complete(off)
    } else if !(0 < off && off <= b.len()) {
        // Never reached: callers keep `off` inside `b`.
        LenResult::BadData
    } else {
        match len_of(b.skip(off)) {
            LenResult::Complete(l) => if 0 < l && off + l <= b.len() {
                children_len(b, off + l, (k - 1) as nat)
            } else {
                // Never reached: a complete frame fits its buffer.
                LenResult::BadData
            },
            other => other,
        }
    }
}

/// A complete frame is at least the three marker-and-terminator bytes and
/// fits inside its buffer; child runs stay inside the buffer too.
pub proof fn lemma_len_of_bounds(b: Seq<u8>)
    ensures
        len_of(b) matches LenResult::Complete(n) ==> 3 <= n <= b.len(),
    decreases b.len(), 0int, 0int,
{
    if b.len() > 0 {
        lemma_first_crlf_bounds(b, 0);
        if b[0] == MARK_BULK || b[0] == MARK_ARRAY || b[0] == MARK_SET || b[0] == MARK_MAP {
            if b.len() >= 3 {
                match first_crlf_from(b, 0) {
                    Some(end) => {
                        match spec_parse_i64(b.subrange(1, end)) {
                            Some(n) => {
                                lemma_children_len_bounds(b, end + 2, (2 * n) as nat);
                                lemma_children_len_bounds(b, end + 2, n as nat);
                            },
                            None => {},
                        }
                    },
                    None => {},
                }
            }
        }
    }
}

/// Bounds for a run of `k` children starting at `off`.
pub proof fn lemma_children_len_bounds(b: Seq<u8>, off: int, k: nat)
    ensures
        0 < off <= b.len() ==> (children_len(b, off, k) matches LenResult::Complete(n) ==> off <= n
            <= b.len()),
        k == 0 ==> children_len(b, off, k) == LenResult::Complete(off),
    decreases b.len() - off, 1int, k,
{
    if k > 0 && 0 < off && off <= b.len() {
        match len_of(b.skip(off)) {
            LenResult::Complete(l) => {
                lemma_len_of_bounds(b.skip(off));
                if 0 < l && off + l <= b.len() {
                    lemma_children_len_bounds(b, off + l, (k - 1) as nat);
                }
            },
            _ => {},
        }
    }
}

/// The first CRLF found from `i` lies between `i` and the end.
pub proof fn lemma_first_crlf_bounds(b: Seq<u8>, i: int)
    ensures
        first_crlf_from(b, i) matches Some(p) ==> i <= p && p + 2 <= b.len() && b[p] == 13 && b[p
            + 1] == 10,
        first_crlf_from(b, i) matches Some(p) ==> forall|j: int|
            i <= j < p ==> !(#[trigger] b[j] == 13 && b[j + 1] == 10),
    decreases b.len() - i,
{
    if i + 1 < b.len() && !(b[i] == 13 && b[i + 1] == 10) {
        lemma_first_crlf_bounds(b, i + 1);
    }
}

// ---------------------------------------------------------------------------
// The float text grammar: what Rust's float parser accepts. The codec checks
// a double's wire text against this grammar and keeps the text; it never
// computes the numeric value.
// ---------------------------------------------------------------------------
/// ASCII lowercasing of one byte.
pub open spec fn ascii_lower(c: u8) -> u8 {
    if 0x41 <= c <= 0x5a {
        (c + 0x20) as u8
    } else {
        c
    }
}

/// Case-insensitive match of `b` against lowercase `w`.
pub open spec fn eq_ignore_case(b: Seq<u8>, w: Seq<u8>) -> bool {
    b.len() == w.len() && forall|i: int| 0 <= i < b.len() ==> ascii_lower(#[trigger] b[i]) == w[i]
}

/// The first `e` or `E` at or after position `i`.
pub open spec fn first_exp_from(b: Seq<u8>, i: int) -> Option<int>
    decreases b.len() - i,
{
    if i >= b.len() {
        None
    } else if b[i] == 0x65 || b[i] == 0x45 {
        Some(i)
    } else {
        first_exp_from(b, i + 1)
    }
}

/// The first `.` at or after position `i`.
pub open spec fn first_dot_from(b: Seq<u8>, i: int) -> Option<int>
    decreases b.len() - i,
{
    if i >= b.len() {
        None
    } else if b[i] == 0x2e {
        Some(i)
    } else {
        first_dot_from(b, i + 1)
    }
}

/// Digits with at most one interior dot and at least one digit.
pub open spec fn is_mantissa(b: Seq<u8>) -> bool {
    match first_dot_from(b, 0) {
        None => b.len() > 0 && all_digits(b),
        Some(d) => all_digits(b.subrange(0, d)) && all_digits(
            b.subrange(d + 1, b.len() as int),
        ) && b.len() > 1,
    }
}

/// An optional sign, then one or more digits.
pub open spec fn is_signed_count(b: Seq<u8>) -> bool {
    let digs = if b.len() > 0 && (b[0] == 0x2b || b[0] == 0x2d) {
        b.drop_first()
    } else {
        b
    };
    digs.len() > 0 && all_digits(digs)
}

/// The grammar of Rust's float parser: an optional sign, then `inf`,
/// `infinity` or `nan` (case-insensitive), or a mantissa with an optional
/// exponent part.
pub open spec fn is_float_text(b: Seq<u8>) -> bool {
    let body = if b.len() > 0 && (b[0] == 0x2b || b[0] == 0x2d) {
        b.drop_first()
    } else {
        b
    };
    ||| eq_ignore_case(body, seq![0x69u8, 0x6eu8, 0x66u8])
    ||| eq_ignore_case(
        body,
        seq![0x69u8, 0x6eu8, 0x66u8, 0x69u8, 0x6eu8, 0x69u8, 0x74u8, 0x79u8],
    )
    ||| eq_ignore_case(body, seq![0x6eu8, 0x61u8, 0x6eu8])
    ||| match first_exp_from(body, 0) {
        None => is_mantissa(body),
        Some(p) => is_mantissa(body.subrange(0, p)) && is_signed_count(
            body.subrange(p + 1, body.len() as int),
        ),
    }
}

// ---------------------------------------------------------------------------
// Encoding: the exact byte serialization of a frame.
// ---------------------------------------------------------------------------
/// The bytes of one frame.
pub open spec fn encode_spec(f: FrameV) -> Seq<u8>
    decreases f, 0int,
{
    match f {
        FrameV::SimpleString(s) => seq![MARK_SIMPLE] + s + crlf(),
        FrameV::SimpleError(s) => seq![MARK_ERROR] + s + crlf(),
        FrameV::Integer(i) => seq![MARK_INT] + dec_int(i as int) + crlf(),
        FrameV::BulkString(None) => seq![MARK_BULK] + dec_int(-1) + crlf(),
        FrameV::BulkString(Some(p)) => seq![MARK_BULK] + dec_int(p.len() as int) + crlf() + p
            + crlf(),
        FrameV::Array(None) => seq![MARK_ARRAY] + dec_int(-1) + crlf(),
        FrameV::Array(Some(els)) => seq![MARK_ARRAY] + dec_int(els.len() as int) + crlf()
            + encode_seq(els),
        FrameV::Null => seq![MARK_NULL] + crlf(),
        FrameV::Boolean(v) => seq![MARK_BOOL] + seq![if v { 0x74u8 } else { 0x66u8 }] + crlf(),
        FrameV::Double(t) => seq![MARK_DOUBLE] + t + crlf(),
        FrameV::MapFrame(pairs) => seq![MARK_MAP] + dec_int(pairs.len() as int) + crlf()
            + encode_pairs(pairs),
        FrameV::SetFrame(els) => seq![MARK_SET] + dec_int(els.len() as int) + crlf() + encode_seq(
            els,
        ),
    }
}

/// The bytes of a run of frames, back to back.
pub open spec fn encode_seq(els: Seq<FrameV>) -> Seq<u8>
    decreases els, 1int,
{
    if els.len() == 0 {
        Seq::empty()
    } else {
        encode_spec(els[0]) + encode_seq(els.drop_first())
    }
}

/// The bytes of a run of map entries: each key as a simple string frame,
/// then its value frame.
pub open spec fn encode_pairs(pairs: Seq<(Seq<u8>, FrameV)>) -> Seq<u8>
    decreases pairs, 1int,
{
    if pairs.len() == 0 {
        Seq::empty()
    } else {
        seq![MARK_SIMPLE] + pairs[0].0 + crlf() + encode_spec(pairs[0].1) + encode_pairs(
            pairs.drop_first(),
        )
    }
}

// ---------------------------------------------------------------------------
// Canonicalization: maps hold entries sorted by key bytes with unique keys,
// the last written value winning; decoded sets hold elements sorted by
// their encoded byte form, deduplicated.
// ---------------------------------------------------------------------------
/// Inserts an entry into a key-sorted entry sequence; an equal key is
/// replaced.
pub open spec fn map_insert(s: Seq<(Seq<u8>, FrameV)>, k: Seq<u8>, v: FrameV) -> Seq<
    (Seq<u8>, FrameV),
>
    decreases s.len(),
{
    if s.len() == 0 {
        seq![(k, v)]
    } else if k == s[0].0 {
        seq![(k, v)] + s.drop_first()
    } else if lex_lt(k, s[0].0) {
        seq![(k, v)] + s
    } else {
        seq![s[0]] + map_insert(s.drop_first(), k, v)
    }
}

/// Inserts a frame into a sequence sorted by encoded form; a duplicate
/// (same encoding) is dropped.
pub open spec fn set_insert(s: Seq<FrameV>, f: FrameV) -> Seq<FrameV>
    decreases s.len(),
{
    if s.len() == 0 {
        seq![f]
    } else if encode_spec(f) == encode_spec(s[0]) {
        s
    } else if lex_lt(encode_spec(f), encode_spec(s[0])) {
        seq![f] + s
    } else {
        seq![s[0]] + set_insert(s.drop_first(), f)
    }
}

/// Folds `map_insert` over decoded entries in wire order.
pub open spec fn map_canon(entries: Seq<(Seq<u8>, FrameV)>) -> Seq<(Seq<u8>, FrameV)>
    decreases entries.len(),
{
    if entries.len() == 0 {
        Seq::empty()
    } else {
        map_insert(map_canon(entries.drop_last()), entries.last().0, entries.last().1)
    }
}

/// Folds `set_insert` over decoded elements in wire order.
pub open spec fn set_canon(els: Seq<FrameV>) -> Seq<FrameV>
    decreases els.len(),
{
    if els.len() == 0 {
        Seq::empty()
    } else {
        set_insert(set_canon(els.drop_last()), els.last())
    }
}

// ---------------------------------------------------------------------------
// Decoding: the value of the first complete frame.
// ---------------------------------------------------------------------------
/// What decoding the first frame of a byte sequence yields.
pub enum DecodeResult {
    /// The frame's model and how many bytes it took.
    Frame(FrameV, int),
    /// More bytes are needed.
    Partial,
    /// No frame marker at the expected position.
    BadType,
    /// A declared count violates its type's minimum.
    BadLen(int),
    /// The frame's content fails a structural check.
    BadData,
}

/// The value of the first complete frame of `b`: the decoder's
/// mathematical content.
pub open spec fn decode_of(b: Seq<u8>) -> DecodeResult
    decreases b.len(), 0int, 0int,
{
    if b.len() == 0 {
        DecodeResult::Partial
    } else if b[0] == MARK_SIMPLE || b[0] == MARK_ERROR || b[0] == MARK_INT || b[0] == MARK_NULL
        || b[0] == MARK_BOOL || b[0] == MARK_DOUBLE {
        match first_crlf_from(b, 0) {
            None => DecodeResult::Partial,
            Some(p) => {
                let content = b.subrange(1, p);
                if b[0] == MARK_SIMPLE {
                    if vstd::utf8::valid_utf8(content) {
                        DecodeResult::Frame(FrameV::SimpleString(content), p + 2)
                    } else {
                        DecodeResult::BadData
                    }
                } else if b[0] == MARK_ERROR {
                    if vstd::utf8::valid_utf8(content) {
                        DecodeResult::Frame(FrameV::SimpleError(content), p + 2)
                    } else {
                        DecodeResult::BadData
                    }
                } else if b[0] == MARK_INT {
                    match spec_parse_i64(content) {
                        Some(v) => DecodeResult::Frame(FrameV::Integer(v), p + 2),
                        None => DecodeResult::BadData,
                    }
                } else if b[0] == MARK_NULL {
                    if p == 1 {
                        DecodeResult::Frame(FrameV::Null, 3)
                    } else {
                        DecodeResult::BadData
                    }
                } else if b[0] == MARK_BOOL {
                    if content == seq![0x74u8] {
                        DecodeResult::Frame(FrameV::Boolean(true), p + 2)
                    } else if content == seq![0x66u8] {
                        DecodeResult::Frame(FrameV::Boolean(false), p + 2)
                    } else {
                        DecodeResult::BadData
                    }
                } else {
                    if is_float_text(content) {
                        DecodeResult::Frame(FrameV::Double(content), p + 2)
                    } else {
                        DecodeResult::BadData
                    }
                }
            },
        }
    } else if b[0] == MARK_BULK {
        match header_of(b) {
            Err(LenResult::Partial) => DecodeResult::Partial,
            Err(_) => DecodeResult::BadData,
            Ok((end, n)) => if n < -1 {
                DecodeResult::BadLen(n)
            } else if n == -1 {
                DecodeResult::Frame(FrameV::BulkString(None), end + 2)
            } else if end + 2 + n + 2 > b.len() {
                DecodeResult::Partial
            } else if b[end + 2 + n] == 13 && b[end + 2 + n + 1] == 10 {
                DecodeResult::Frame(
                    FrameV::BulkString(Some(b.subrange(end + 2, end + 2 + n))),
                    end + 2 + n + 2,
                )
            } else {
                DecodeResult::BadData
            },
        }
    } else if b[0] == MARK_ARRAY {
        match header_of(b) {
            Err(LenResult::Partial) => DecodeResult::Partial,
            Err(_) => DecodeResult::BadData,
            Ok((end, n)) => if n < -1 {
                DecodeResult::BadLen(n)
            } else if n == -1 {
                DecodeResult::Frame(FrameV::Array(None), end + 2)
            } else {
                match decode_children(b, end + 2, n as nat) {
                    Ok((els, off)) => DecodeResult::Frame(FrameV::Array(Some(els)), off),
                    Err(e) => e,
                }
            },
        }
    } else if b[0] == MARK_SET {
        match header_of(b) {
            Err(LenResult::Partial) => DecodeResult::Partial,
            Err(_) => DecodeResult::BadData,
            Ok((end, n)) => if n < 0 {
                DecodeResult::BadLen(n)
            } else {
                match decode_children(b, end + 2, n as nat) {
                    Ok((els, off)) => DecodeResult::Frame(FrameV::SetFrame(set_canon(els)), off),
                    Err(e) => e,
                }
            },
        }
    } else if b[0] == MARK_MAP {
        match header_of(b) {
            Err(LenResult::Partial) => DecodeResult::Partial,
            Err(_) => DecodeResult::BadData,
            Ok((end, n)) => if n < 0 {
                DecodeResult::BadLen(n)
            } else {
                match decode_entries(b, end + 2, n as nat) {
                    Ok((entries, off)) => DecodeResult::Frame(
                        FrameV::MapFrame(map_canon(entries)),
                        off,
                    ),
                    Err(e) => e,
                }
            },
        }
    } else {
        DecodeResult::BadType
    }
}

/// Decodes `k` child frames starting at `off`, left to right, in wire
/// order.
pub open spec fn decode_children(b: Seq<u8>, off: int, k: nat) -> Result<
    (Seq<FrameV>, int),
    DecodeResult,
>
    decreases b.len() - off, 1int, k,
{
    if k == 0 {
        Ok((Seq::empty(), off))
    } else if !(0 < off && off <= b.len()) {
        // Never reached: callers keep `off` inside `b`.
        Err(DecodeResult::BadData)
    } else {
        match decode_of(b.skip(off)) {
            DecodeResult::Frame(f, l) => if 0 < l && off + l <= b.len() {
                match decode_children(b, off + l, (k - 1) as nat) {
                    Ok((rest, fin)) => Ok((seq![f] + rest, fin)),
                    Err(e) => Err(e),
                }
            } else {
                // Never reached: a complete frame fits its buffer.
                Err(DecodeResult::BadData)
            },
            other => Err(other),
        }
    }
}

/// Decodes `k` key/value entry pairs starting at `off`. Each key must be a
/// simple string frame.
pub open spec fn decode_entries(b: Seq<u8>, off: int, k: nat) -> Result<
    (Seq<(Seq<u8>, FrameV)>, int),
    DecodeResult,
>
    decreases b.len() - off, 1int, k,
{
    if k == 0 {
        Ok((Seq::empty(), off))
    } else if !(0 < off && off <= b.len()) {
        // Never reached: callers keep `off` inside `b`.
        Err(DecodeResult::BadData)
    } else if off < b.len() && b[off] != MARK_SIMPLE {
        Err(DecodeResult::BadType)
    } else {
        match decode_of(b.skip(off)) {
            DecodeResult::Frame(kf, l) => if 0 < l && off + l <= b.len() {
                match kf {
                    FrameV::SimpleString(key) => match decode_of(b.skip(off + l)) {
                        DecodeResult::Frame(vf, l2) => if 0 < l2 && off + l + l2 <= b.len() {
                            match decode_entries(b, off + l + l2, (k - 1) as nat) {
                                Ok((rest, fin)) => Ok((seq![(key, vf)] + rest, fin)),
                                Err(e) => Err(e),
                            }
                        } else {
                            // Never reached: a complete frame fits its buffer.
                            Err(DecodeResult::BadData)
                        },
                        other => Err(other),
                    },
                    // Never reached: a `+` frame decodes to a simple string.
                    _ => Err(DecodeResult::BadData),
                }
            } else {
                // Never reached: a complete frame fits its buffer.
                Err(DecodeResult::BadData)
            },
            other => Err(other),
        }
    }
}

/// A failed child run never reports a frame as its error.
pub proof fn lemma_decode_children_err_shape(b: Seq<u8>, off: int, k: nat)
    ensures
        match decode_children(b, off, k) {
            Ok(_) => true,
            Err(e) => !(e is Frame),
        },
    decreases b.len() - off, 1int, k,
{
    if k > 0 && 0 < off && off <= b.len() {
        match decode_of(b.skip(off)) {
            DecodeResult::Frame(f, l) => {
                if 0 < l && off + l <= b.len() {
                    lemma_decode_children_err_shape(b, off + l, (k - 1) as nat);
                }
            },
            _ => {},
        }
    }
}

/// A failed entry run never reports a frame as its error.
pub proof fn lemma_decode_entries_err_shape(b: Seq<u8>, off: int, k: nat)
    ensures
        match decode_entries(b, off, k) {
            Ok(_) => true,
            Err(e) => !(e is Frame),
        },
    decreases b.len() - off, 1int, k,
{
    if k > 0 && 0 < off && off <= b.len() {
        if !(off < b.len() && b[off] != MARK_SIMPLE) {
            match decode_of(b.skip(off)) {
                DecodeResult::Frame(kf, l) => {
                    if 0 < l && off + l <= b.len() {
                        match kf {
                            FrameV::SimpleString(_) => {
                                match decode_of(b.skip(off + l)) {
                                    DecodeResult::Frame(vf, l2) => {
                                        if 0 < l2 && off + l + l2 <= b.len() {
                                            lemma_decode_entries_err_shape(
                                                b,
                                                off + l + l2,
                                                (k - 1) as nat,
                                            );
                                        }
                                    },
                                    _ => {},
                                }
                            },
                            _ => {},
                        }
                    }
                },
                _ => {},
            }
        }
    }
}

/// A frame the decoder yields is of the variant its marker announces.
#[verifier::spinoff_prover]
#[verifier::rlimit(60)]
pub proof fn lemma_decode_of_variant(b: Seq<u8>)
    ensures
        match decode_of(b) {
            DecodeResult::Frame(fv, _) => b.len() > 0 && {
                &&& b[0] == MARK_SIMPLE ==> fv is SimpleString
                &&& b[0] == MARK_ERROR ==> fv is SimpleError
                &&& b[0] == MARK_INT ==> fv is Integer
                &&& b[0] == MARK_NULL ==> fv is Null
                &&& b[0] == MARK_BOOL ==> fv is Boolean
                &&& b[0] == MARK_DOUBLE ==> fv is Double
                &&& b[0] == MARK_BULK ==> fv is BulkString
                &&& b[0] == MARK_ARRAY ==> fv is Array
                &&& b[0] == MARK_SET ==> fv is SetFrame
                &&& b[0] == MARK_MAP ==> fv is MapFrame
            },
            _ => true,
        },
{
    if b.len() > 0 {
        if b[0] == MARK_BULK || b[0] == MARK_ARRAY || b[0] == MARK_SET || b[0] == MARK_MAP {
            match header_of(b) {
                Ok((end, n)) => {
                    if b[0] == MARK_ARRAY || b[0] == MARK_SET {
                        if n >= 0 {
                            lemma_decode_children_err_shape(b, end + 2, n as nat);
                        }
                    } else if b[0] == MARK_MAP {
                        if n >= 0 {
                            lemma_decode_entries_err_shape(b, end + 2, n as nat);
                        }
                    }
                },
                Err(_) => {},
            }
        } else {
            match first_crlf_from(b, 0) {
                Some(_) => {},
                None => {},
            }
        }
    }
}

/// A frame the decoder yields takes exactly the bytes the length oracle
/// counts for it; when the decoder needs more bytes, so does the oracle.
#[verifier::spinoff_prover]
#[verifier::rlimit(60)]
pub proof fn lemma_decode_len_agree(b: Seq<u8>)
    ensures
        match decode_of(b) {
            DecodeResult::Frame(fv, l) => len_of(b) == LenResult::Complete(l),
            DecodeResult::Partial => len_of(b) == LenResult::Partial,
            _ => true,
        },
    decreases b.len(), 0int, 0int,
{
    if b.len() > 0 {
        if b[0] == MARK_ARRAY || b[0] == MARK_SET || b[0] == MARK_BULK {
            match header_of(b) {
                Ok((end, n)) => {
                    if n >= 0 && b[0] != MARK_BULK {
                        lemma_agree_children(b, end + 2, n as nat);
                        lemma_decode_children_err_shape(b, end + 2, n as nat);
                    }
                },
                Err(_) => {},
            }
        } else if b[0] == MARK_MAP {
            match header_of(b) {
                Ok((end, n)) => {
                    if n >= 0 {
                        lemma_agree_entries(b, end + 2, n as nat);
                        lemma_decode_entries_err_shape(b, end + 2, n as nat);
                    }
                },
                Err(_) => {},
            }
        } else {
            match first_crlf_from(b, 0) {
                Some(_) => {},
                None => {},
            }
        }
    }
}

/// Agreement between decoding and measuring a run of `k` children.
pub proof fn lemma_agree_children(b: Seq<u8>, off: int, k: nat)
    ensures
        match decode_children(b, off, k) {
            Ok((els, fin)) => children_len(b, off, k) == LenResult::Complete(fin),
            Err(DecodeResult::Partial) => children_len(b, off, k) == LenResult::Partial,
            Err(_) => true,
        },
    decreases b.len() - off, 1int, k,
{
    if k > 0 && 0 < off && off <= b.len() {
        lemma_decode_len_agree(b.skip(off));
        lemma_len_of_bounds(b.skip(off));
        match decode_of(b.skip(off)) {
            DecodeResult::Frame(f, l) => {
                if 0 < l && off + l <= b.len() {
                    lemma_agree_children(b, off + l, (k - 1) as nat);
                }
            },
            _ => {},
        }
    }
}

/// Agreement between decoding `k` entries and measuring their `2k` child
/// frames.
pub proof fn lemma_agree_entries(b: Seq<u8>, off: int, k: nat)
    ensures
        match decode_entries(b, off, k) {
            Ok((entries, fin)) => children_len(b, off, (2 * k) as nat) == LenResult::Complete(fin),
            Err(DecodeResult::Partial) => children_len(b, off, (2 * k) as nat)
                == LenResult::Partial,
            Err(_) => true,
        },
    decreases b.len() - off, 1int, k,
{
    if k > 0 && 0 < off && off <= b.len() {
        lemma_decode_len_agree(b.skip(off));
        lemma_len_of_bounds(b.skip(off));
        if !(off < b.len() && b[off] != MARK_SIMPLE) {
            match decode_of(b.skip(off)) {
                DecodeResult::Frame(kf, l) => {
                    if 0 < l && off + l <= b.len() {
                        match kf {
                            FrameV::SimpleString(_) => {
                                lemma_decode_len_agree(b.skip(off + l));
                                lemma_len_of_bounds(b.skip(off + l));
                                assert(children_len(b, off, (2 * k) as nat) == children_len(
                                    b,
                                    off + l,
                                    (2 * k - 1) as nat,
                                ));
                                match decode_of(b.skip(off + l)) {
                                    DecodeResult::Frame(vf, l2) => {
                                        if 0 < l2 && off + l + l2 <= b.len() {
                                            lemma_agree_entries(b, off + l + l2, (k - 1) as nat);
                                            assert((2 * k - 2) as nat == 2 * ((k - 1) as nat));
                                            assert(children_len(b, off + l, (2 * k - 1) as nat)
                                                == children_len(
                                                b,
                                                off + l + l2,
                                                (2 * k - 2) as nat,
                                            ));
                                        }
                                    },
                                    _ => {},
                                }
                            },
                            _ => {},
                        }
                    }
                },
                _ => {},
            }
        }
    }
}

} // verus!
