//! The laws of the codec, stated and proved over the wire-grammar model:
//! round-tripping, boundary stability under appended input, and
//! permutation-invariance of canonicalization.
use vstd::prelude::*;

verus! {

use vstd::utf8::valid_utf8;

use crate::digits::all_digits;
use crate::digits::dec_digits;
use crate::digits::dec_int;
use crate::digits::is_digit;
use crate::digits::lemma_dec_digits_no_crlf;
use crate::digits::lemma_dec_digits_val;
use crate::digits::lemma_parse_dec_int;
use crate::frame::FrameV;
use crate::order::lemma_lex_transitive;
use crate::order::lemma_lex_trichotomy;
use crate::order::lex_lt;
use crate::wire::DecodeResult;
use crate::wire::LenResult;
use crate::wire::MARK_ARRAY;
use crate::wire::MARK_BOOL;
use crate::wire::MARK_BULK;
use crate::wire::MARK_DOUBLE;
use crate::wire::MARK_ERROR;
use crate::wire::MARK_INT;
use crate::wire::MARK_MAP;
use crate::wire::MARK_NULL;
use crate::wire::MARK_SET;
use crate::wire::MARK_SIMPLE;
use crate::wire::ascii_lower;
use crate::wire::crlf;
use crate::wire::decode_children;
use crate::wire::decode_entries;
use crate::wire::decode_of;
use crate::wire::encode_pairs;
use crate::wire::encode_seq;
use crate::wire::encode_spec;
use crate::wire::eq_ignore_case;
use crate::wire::first_crlf_from;
use crate::wire::first_dot_from;
use crate::wire::first_exp_from;
use crate::wire::header_of;
use crate::wire::is_float_text;
use crate::wire::is_mantissa;
use crate::wire::is_signed_count;
use crate::wire::children_len;
use crate::wire::len_of;
use crate::wire::map_canon;
use crate::wire::map_insert;
use crate::wire::set_canon;
use crate::wire::set_insert;

/// No CRLF pair occurs inside these bytes.
pub open spec fn no_crlf(s: Seq<u8>) -> bool {
    forall|i: int| 0 <= i < s.len() - 1 ==> !(#[trigger] s[i] == 13 && s[i + 1] == 10)
}

/// A constructible frame value that could have arrived via decode: line
/// text holds valid UTF-8 without a CRLF pair, a double's text matches the
/// float grammar, aggregate counts fit the wire's signed count, and maps
/// and sets are in canonical order.
pub open spec fn wf(v: FrameV) -> bool
    decreases v,
{
    match v {
        FrameV::SimpleString(s) => valid_utf8(s) && no_crlf(s),
        FrameV::SimpleError(s) => valid_utf8(s) && no_crlf(s),
        FrameV::Integer(_) => true,
        FrameV::BulkString(None) => true,
        FrameV::BulkString(Some(p)) => p.len() <= i64::MAX,
        FrameV::Array(None) => true,
        FrameV::Array(Some(els)) => els.len() <= i64::MAX && (forall|i: int|
            0 <= i < els.len() ==> wf(#[trigger] els[i])),
        FrameV::Null => true,
        FrameV::Boolean(_) => true,
        FrameV::Double(t) => is_float_text(t),
        FrameV::MapFrame(pairs) => pairs.len() <= i64::MAX && (forall|i: int|
            0 <= i < pairs.len() ==> valid_utf8((#[trigger] pairs[i]).0) && no_crlf(pairs[i].0)
                && wf(pairs[i].1)) && (forall|i: int|
            0 <= i < pairs.len() - 1 ==> lex_lt((#[trigger] pairs[i]).0, pairs[i + 1].0)),
        FrameV::SetFrame(els) => els.len() <= i64::MAX && (forall|i: int|
            0 <= i < els.len() ==> wf(#[trigger] els[i])) && (forall|i: int|
            0 <= i < els.len() - 1 ==> lex_lt(
                encode_spec(#[trigger] els[i]),
                encode_spec(els[i + 1]),
            )),
    }
}

/// Every encoding starts with its marker and ends with CRLF: at least
/// three bytes.
pub proof fn lemma_encode_min_len(v: FrameV)
    ensures
        encode_spec(v).len() >= 3,
{
    match v {
        FrameV::Integer(i) => {
            lemma_dec_int_len(i as int);
        },
        FrameV::BulkString(None) => {
            lemma_dec_int_len(-1);
        },
        FrameV::BulkString(Some(p)) => {
            lemma_dec_int_len(p.len() as int);
        },
        FrameV::Array(None) => {
            lemma_dec_int_len(-1);
        },
        FrameV::Array(Some(els)) => {
            lemma_dec_int_len(els.len() as int);
        },
        FrameV::MapFrame(pairs) => {
            lemma_dec_int_len(pairs.len() as int);
        },
        FrameV::SetFrame(els) => {
            lemma_dec_int_len(els.len() as int);
        },
        _ => {},
    }
}

/// Decimal text is nonempty.
pub proof fn lemma_dec_int_len(i: int)
    ensures
        dec_int(i).len() >= 1,
        all_digits(dec_int(i)) || (dec_int(i)[0] == 0x2d && all_digits(dec_int(i).drop_first())),
        no_crlf_bytes_absent(dec_int(i)),
{
    if i < 0 {
        lemma_dec_digits_val((-i) as nat);
        lemma_dec_digits_no_crlf((-i) as nat);
        assert(dec_int(i).drop_first() =~= dec_digits((-i) as nat));
        assert forall|j: int| 0 <= j < dec_int(i).len() implies dec_int(i)[j] != 13 && dec_int(
            i,
        )[j] != 10 by {
            if j > 0 {
                assert(dec_int(i)[j] == dec_digits((-i) as nat)[j - 1]);
            }
        }
    } else {
        lemma_dec_digits_val(i as nat);
        lemma_dec_digits_no_crlf(i as nat);
    }
}

/// Neither a carriage return nor a line feed occurs anywhere in the bytes.
pub open spec fn no_crlf_bytes_absent(s: Seq<u8>) -> bool {
    forall|i: int| 0 <= i < s.len() ==> (#[trigger] s[i]) != 13 && s[i] != 10
}

/// Bytes free of carriage returns and line feeds hold no CRLF pair.
pub proof fn lemma_absent_implies_no_crlf(s: Seq<u8>)
    requires
        no_crlf_bytes_absent(s),
    ensures
        no_crlf(s),
{
}

/// Float-grammar text holds no carriage return or line feed.
pub proof fn lemma_float_text_no_crlf(t: Seq<u8>)
    requires
        is_float_text(t),
    ensures
        no_crlf_bytes_absent(t),
        t.len() >= 1,
{
    let body = if t.len() > 0 && (t[0] == 0x2b || t[0] == 0x2d) {
        t.drop_first()
    } else {
        t
    };
    assert(body.len() >= 1) by {
        if eq_ignore_case(body, seq![0x69u8, 0x6eu8, 0x66u8]) {
        } else if eq_ignore_case(
            body,
            seq![0x69u8, 0x6eu8, 0x66u8, 0x69u8, 0x6eu8, 0x69u8, 0x74u8, 0x79u8],
        ) {
        } else if eq_ignore_case(body, seq![0x6eu8, 0x61u8, 0x6eu8]) {
        } else {
            match first_exp_from(body, 0) {
                None => {
                    lemma_mantissa_len(body);
                },
                Some(p) => {
                    lemma_first_exp_in_range(body, 0);
                },
            }
        }
    }
    assert(no_crlf_bytes_absent(body)) by {
        lemma_float_body_no_crlf(body);
    }
    assert forall|i: int| 0 <= i < t.len() implies (#[trigger] t[i]) != 13 && t[i] != 10 by {
        if t.len() > 0 && (t[0] == 0x2b || t[0] == 0x2d) {
            if i > 0 {
                assert(body[i - 1] == t[i]);
            }
        } else {
            assert(body[i] == t[i]);
        }
    }
}

/// A mantissa has at least one byte.
proof fn lemma_mantissa_len(m: Seq<u8>)
    requires
        is_mantissa(m),
    ensures
        m.len() >= 1,
{
    match first_dot_from(m, 0) {
        None => {},
        Some(d) => {
            lemma_first_dot_in_range(m, 0);
        },
    }
}

/// The first dot lies inside the bytes.
proof fn lemma_first_dot_in_range(b: Seq<u8>, i: int)
    requires
        0 <= i,
    ensures
        first_dot_from(b, i) matches Some(p) ==> i <= p < b.len() && b[p] == 0x2e,
        first_dot_from(b, i) matches Some(p) ==> forall|j: int| i <= j < p ==> (#[trigger] b[j])
            != 0x2e,
    decreases b.len() - i,
{
    if i < b.len() && b[i] != 0x2e {
        lemma_first_dot_in_range(b, i + 1);
    }
}

/// The first exponent marker lies inside the bytes.
proof fn lemma_first_exp_in_range(b: Seq<u8>, i: int)
    requires
        0 <= i,
    ensures
        first_exp_from(b, i) matches Some(p) ==> i <= p < b.len() && (b[p] == 0x65 || b[p]
            == 0x45),
        first_exp_from(b, i) matches Some(p) ==> forall|j: int| i <= j < p ==> (#[trigger] b[j])
            != 0x65 && b[j] != 0x45,
    decreases b.len() - i,
{
    if i < b.len() && !(b[i] == 0x65 || b[i] == 0x45) {
        lemma_first_exp_in_range(b, i + 1);
    }
}

/// The signless body of float text holds no carriage return or line feed.
proof fn lemma_float_body_no_crlf(body: Seq<u8>)
    requires
        ({
            ||| eq_ignore_case(body, seq![0x69u8, 0x6eu8, 0x66u8])
            ||| eq_ignore_case(
                body,
                seq![0x69u8, 0x6eu8, 0x66u8, 0x69u8, 0x6eu8, 0x69u8, 0x74u8, 0x79u8],
            )
            ||| eq_ignore_case(body, seq![0x6eu8, 0x61u8, 0x6eu8])
            ||| match first_exp_from(body, 0) {
                None => is_mantissa(body),
                Some(p) => is_mantissa(body.subrange(0, p)) && is_signed_count(
                    body.subrange(p + 1, body.len() as int),
                ),
            }
        }),
    ensures
        no_crlf_bytes_absent(body),
{
    if eq_ignore_case(body, seq![0x69u8, 0x6eu8, 0x66u8]) || eq_ignore_case(
        body,
        seq![0x69u8, 0x6eu8, 0x66u8, 0x69u8, 0x6eu8, 0x69u8, 0x74u8, 0x79u8],
    ) || eq_ignore_case(body, seq![0x6eu8, 0x61u8, 0x6eu8]) {
        assert forall|i: int| 0 <= i < body.len() implies (#[trigger] body[i]) != 13 && body[i]
            != 10 by {
            assert(ascii_lower(13) == 13 && ascii_lower(10) == 10);
            assert(ascii_lower(body[i]) != 13 || body[i] != 13);
        }
    } else {
        match first_exp_from(body, 0) {
            None => {
                lemma_mantissa_no_crlf(body);
            },
            Some(p) => {
                lemma_first_exp_in_range(body, 0);
                lemma_mantissa_no_crlf(body.subrange(0, p));
                let e = body.subrange(p + 1, body.len() as int);
                lemma_signed_count_no_crlf(e);
                assert forall|i: int| 0 <= i < body.len() implies (#[trigger] body[i]) != 13
                    && body[i] != 10 by {
                    if i < p {
                        assert(body.subrange(0, p)[i] == body[i]);
                    } else if i > p {
                        assert(e[i - p - 1] == body[i]);
                    }
                }
            },
        }
    }
}

/// A mantissa holds only digits and a dot.
proof fn lemma_mantissa_no_crlf(m: Seq<u8>)
    requires
        is_mantissa(m),
    ensures
        no_crlf_bytes_absent(m),
{
    match first_dot_from(m, 0) {
        None => {
            assert forall|i: int| 0 <= i < m.len() implies (#[trigger] m[i]) != 13 && m[i]
                != 10 by {
                assert(is_digit(m[i]));
            }
        },
        Some(d) => {
            lemma_first_dot_in_range(m, 0);
            assert forall|i: int| 0 <= i < m.len() implies (#[trigger] m[i]) != 13 && m[i]
                != 10 by {
                if i < d {
                    assert(m.subrange(0, d)[i] == m[i]);
                    assert(is_digit(m[i]));
                } else if i > d {
                    assert(m.subrange(d + 1, m.len() as int)[i - d - 1] == m[i]);
                    assert(is_digit(m[i]));
                }
            }
        },
    }
}

/// A signed count holds only a sign and digits.
proof fn lemma_signed_count_no_crlf(e: Seq<u8>)
    requires
        is_signed_count(e),
    ensures
        no_crlf_bytes_absent(e),
{
    let digs = if e.len() > 0 && (e[0] == 0x2b || e[0] == 0x2d) {
        e.drop_first()
    } else {
        e
    };
    assert forall|i: int| 0 <= i < e.len() implies (#[trigger] e[i]) != 13 && e[i] != 10 by {
        if e.len() > 0 && (e[0] == 0x2b || e[0] == 0x2d) {
            if i > 0 {
                assert(digs[i - 1] == e[i]);
                assert(is_digit(e[i]));
            }
        } else {
            assert(digs[i] == e[i]);
            assert(is_digit(e[i]));
        }
    }
}

/// When a CRLF pair stands at `p` and none earlier, the scan finds `p`.
pub proof fn lemma_first_crlf_exact(b: Seq<u8>, i: int, p: int)
    requires
        0 <= i <= p,
        p + 2 <= b.len(),
        b[p] == 13,
        b[p + 1] == 10,
        forall|j: int| i <= j < p ==> !(#[trigger] b[j] == 13 && b[j + 1] == 10),
    ensures
        first_crlf_from(b, i) == Some(p),
    decreases p - i,
{
    if i < p {
        lemma_first_crlf_exact(b, i + 1, p);
    }
}

/// The header shape shared by every line-delimited piece of an encoding:
/// a marker byte that is no carriage return, then CRLF-free text, then the
/// terminator. The first CRLF of such bytes (with anything appended) is
/// exactly at the end of the text.
pub proof fn lemma_line_shape(marker: u8, text: Seq<u8>, tail: Seq<u8>)
    requires
        marker != 13,
        no_crlf(text),
    ensures
        first_crlf_from(seq![marker] + text + crlf() + tail, 0) == Some(1 + text.len() as int),
        (seq![marker] + text + crlf() + tail).subrange(1, 1 + text.len() as int) == text,
        (seq![marker] + text + crlf() + tail).len() == text.len() + 3 + tail.len(),
        (seq![marker] + text + crlf() + tail)[0] == marker,
{
    let b = seq![marker] + text + crlf() + tail;
    let p = 1 + text.len() as int;
    assert(b[p] == 13);
    assert(b[p + 1] == 10);
    assert forall|j: int| 0 <= j < p implies !(#[trigger] b[j] == 13 && b[j + 1] == 10) by {
        if j > 0 && j < p - 1 {
            assert(b[j] == text[j - 1]);
            assert(b[j + 1] == text[j]);
            assert(!(text[j - 1] == 13 && text[j] == 10));
        } else if j == p - 1 && j > 0 {
            assert(b[j + 1] == 13);
        }
    }
    lemma_first_crlf_exact(b, 0, p);
    assert(b.subrange(1, p) =~= text);
}

/// An aggregate header encodes and reads back exactly: marker, the decimal
/// count, CRLF.
pub proof fn lemma_header_round_trip(marker: u8, n: i64, rest: Seq<u8>)
    requires
        marker != 13,
    ensures
        header_of(seq![marker] + dec_int(n as int) + crlf() + rest) == Ok::<(int, int), LenResult>(
            (1 + dec_int(n as int).len() as int, n as int),
        ),
{
    let d = dec_int(n as int);
    lemma_dec_int_len(n as int);
    lemma_absent_implies_no_crlf(d);
    lemma_line_shape(marker, d, rest);
    let b = seq![marker] + d + crlf() + rest;
    let end = 1 + d.len() as int;
    assert(b.len() >= 3);
    lemma_parse_dec_int(n);
    assert(b.subrange(1, end) == d);
}

/// One frame, encoded and followed by anything, decodes back to exactly
/// that frame, consuming exactly its encoding.
#[verifier::spinoff_prover]
#[verifier::rlimit(100)]
pub proof fn lemma_round_trip_frame(v: FrameV, tail: Seq<u8>)
    requires
        wf(v),
    ensures
        decode_of(encode_spec(v) + tail) == DecodeResult::Frame(v, encode_spec(v).len() as int),
    decreases v, 0int,
{
    let enc = encode_spec(v);
    let b = enc + tail;
    match v {
        FrameV::SimpleString(s) => {
            lemma_line_shape(MARK_SIMPLE, s, tail);
            assert(b =~= seq![MARK_SIMPLE] + s + crlf() + tail);
        },
        FrameV::SimpleError(s) => {
            lemma_line_shape(MARK_ERROR, s, tail);
            assert(b =~= seq![MARK_ERROR] + s + crlf() + tail);
        },
        FrameV::Integer(i) => {
            lemma_dec_int_len(i as int);
            lemma_absent_implies_no_crlf(dec_int(i as int));
            lemma_line_shape(MARK_INT, dec_int(i as int), tail);
            assert(b =~= seq![MARK_INT] + dec_int(i as int) + crlf() + tail);
            lemma_parse_dec_int(i);
        },
        FrameV::BulkString(None) => {
            lemma_header_round_trip(MARK_BULK, -1i64, tail);
            assert(b =~= seq![MARK_BULK] + dec_int(-1) + crlf() + tail);
            lemma_dec_int_len(-1);
        },
        FrameV::BulkString(Some(p)) => {
            let d = dec_int(p.len() as int);
            lemma_dec_int_len(p.len() as int);
            lemma_header_round_trip(MARK_BULK, p.len() as i64, p + crlf() + tail);
            assert(b =~= seq![MARK_BULK] + d + crlf() + (p + crlf() + tail));
            let end = 1 + d.len() as int;
            assert(b[end + 2 + p.len()] == 13);
            assert(b[end + 2 + p.len() + 1] == 10);
            assert(b.subrange(end + 2, end + 2 + p.len() as int) =~= p);
        },
        FrameV::Array(None) => {
            lemma_header_round_trip(MARK_ARRAY, -1i64, tail);
            assert(b =~= seq![MARK_ARRAY] + dec_int(-1) + crlf() + tail);
            lemma_dec_int_len(-1);
        },
        FrameV::Array(Some(els)) => {
            let d = dec_int(els.len() as int);
            lemma_dec_int_len(els.len() as int);
            lemma_header_round_trip(MARK_ARRAY, els.len() as i64, encode_seq(els) + tail);
            assert(b =~= seq![MARK_ARRAY] + d + crlf() + (encode_seq(els) + tail));
            let off = 3 + d.len() as int;
            assert(b.skip(off) =~= encode_seq(els) + tail);
            assert(decreases_to!(v => els));
            lemma_round_trip_children(b, off, els, tail);
        },
        FrameV::Null => {
            lemma_line_shape(MARK_NULL, Seq::<u8>::empty(), tail);
            assert(b =~= seq![MARK_NULL] + Seq::<u8>::empty() + crlf() + tail);
        },
        FrameV::Boolean(val) => {
            let text = seq![if val { 0x74u8 } else { 0x66u8 }];
            lemma_line_shape(MARK_BOOL, text, tail);
            assert(b =~= seq![MARK_BOOL] + text + crlf() + tail);
        },
        FrameV::Double(t) => {
            lemma_float_text_no_crlf(t);
            lemma_absent_implies_no_crlf(t);
            lemma_line_shape(MARK_DOUBLE, t, tail);
            assert(b =~= seq![MARK_DOUBLE] + t + crlf() + tail);
        },
        FrameV::MapFrame(pairs) => {
            let d = dec_int(pairs.len() as int);
            lemma_dec_int_len(pairs.len() as int);
            lemma_header_round_trip(MARK_MAP, pairs.len() as i64, encode_pairs(pairs) + tail);
            assert(b =~= seq![MARK_MAP] + d + crlf() + (encode_pairs(pairs) + tail));
            let off = 3 + d.len() as int;
            assert(b.skip(off) =~= encode_pairs(pairs) + tail);
            assert(decreases_to!(v => pairs));
            lemma_round_trip_entries(b, off, pairs, tail);
            lemma_map_canon_id(pairs);
        },
        FrameV::SetFrame(els) => {
            let d = dec_int(els.len() as int);
            lemma_dec_int_len(els.len() as int);
            lemma_header_round_trip(MARK_SET, els.len() as i64, encode_seq(els) + tail);
            assert(b =~= seq![MARK_SET] + d + crlf() + (encode_seq(els) + tail));
            let off = 3 + d.len() as int;
            assert(b.skip(off) =~= encode_seq(els) + tail);
            assert(decreases_to!(v => els));
            lemma_round_trip_children(b, off, els, tail);
            lemma_set_canon_id(els);
        },
    }
}

/// A run of encoded frames decodes back elementwise, ending exactly where
/// the run's bytes end.
#[verifier::spinoff_prover]
#[verifier::rlimit(100)]
pub proof fn lemma_round_trip_children(b: Seq<u8>, off: int, els: Seq<FrameV>, tail: Seq<u8>)
    requires
        0 < off <= b.len(),
        b.skip(off) == encode_seq(els) + tail,
        forall|i: int| 0 <= i < els.len() ==> wf(#[trigger] els[i]),
    ensures
        decode_children(b, off, els.len() as nat) == Ok::<(Seq<FrameV>, int), DecodeResult>(
            (els, off + encode_seq(els).len()),
        ),
    decreases els, 1int,
{
    if els.len() == 0 {
        assert(encode_seq(els) + tail =~= tail);
        assert(els =~= Seq::<FrameV>::empty());
        assert(encode_seq(els).len() == 0);
    } else {
        let head = els[0];
        let rest = els.drop_first();
        assert(decreases_to!(els => els[0]));
        assert(encode_seq(els) == encode_spec(head) + encode_seq(rest));
        let l0 = encode_spec(head).len() as int;
        assert(b.skip(off) =~= encode_spec(head) + (encode_seq(rest) + tail));
        lemma_round_trip_frame(head, encode_seq(rest) + tail);
        lemma_encode_min_len(head);
        assert(decode_of(b.skip(off)) == DecodeResult::Frame(head, l0));
        assert(off + l0 <= b.len()) by {
            assert(b.skip(off).len() == b.len() - off);
        }
        assert(b.skip(off + l0) =~= encode_seq(rest) + tail) by {
            assert forall|j: int| 0 <= j < b.len() - off - l0 implies b.skip(off + l0)[j] == (
            encode_seq(rest) + tail)[j] by {
                assert(b.skip(off + l0)[j] == b.skip(off)[j + l0]);
            }
        }
        lemma_round_trip_children(b, off + l0, rest, tail);
        assert(seq![head] + rest =~= els);
        assert(decode_children(b, off, els.len() as nat) == Ok::<(Seq<FrameV>, int), DecodeResult>(
            (els, off + encode_seq(els).len()),
        ));
    }
}

/// A run of encoded entries decodes back elementwise.
#[verifier::spinoff_prover]
#[verifier::rlimit(100)]
pub proof fn lemma_round_trip_entries(
    b: Seq<u8>,
    off: int,
    pairs: Seq<(Seq<u8>, FrameV)>,
    tail: Seq<u8>,
)
    requires
        0 < off <= b.len(),
        b.skip(off) == encode_pairs(pairs) + tail,
        forall|i: int|
            0 <= i < pairs.len() ==> valid_utf8((#[trigger] pairs[i]).0) && no_crlf(pairs[i].0)
                && wf(pairs[i].1),
    ensures
        decode_entries(b, off, pairs.len() as nat) == Ok::<
            (Seq<(Seq<u8>, FrameV)>, int),
            DecodeResult,
        >((pairs, off + encode_pairs(pairs).len())),
    decreases pairs, 1int,
{
    if pairs.len() == 0 {
        assert(encode_pairs(pairs) + tail =~= tail);
        assert(pairs =~= Seq::<(Seq<u8>, FrameV)>::empty());
        assert(encode_pairs(pairs).len() == 0);
    } else {
        let key = pairs[0].0;
        let value = pairs[0].1;
        let rest = pairs.drop_first();
        assert(decreases_to!(pairs => pairs[0]));
        assert(decreases_to!(pairs[0] => pairs[0].1));
        let key_bytes = seq![MARK_SIMPLE] + key + crlf();
        assert(encode_pairs(pairs) == key_bytes + encode_spec(value) + encode_pairs(rest));
        let lk = key_bytes.len() as int;
        let lv = encode_spec(value).len() as int;
        // The key is a line frame: it decodes to a simple string.
        assert(b.skip(off) =~= seq![MARK_SIMPLE] + key + crlf() + (encode_spec(value)
            + encode_pairs(rest) + tail));
        lemma_line_shape(MARK_SIMPLE, key, encode_spec(value) + encode_pairs(rest) + tail);
        assert(b.skip(off).len() == b.len() - off);
        assert(decode_of(b.skip(off)) == DecodeResult::Frame(FrameV::SimpleString(key), lk)) by {
            assert(b.skip(off)[0] == MARK_SIMPLE);
            assert(first_crlf_from(b.skip(off), 0) == Some(1 + key.len() as int));
            assert(b.skip(off).subrange(1, 1 + key.len() as int) == key);
        }
        assert(b[off] == MARK_SIMPLE) by {
            assert(b.skip(off)[0] == b[off]);
        }
        assert(off + lk <= b.len());
        assert(b.skip(off + lk) =~= encode_spec(value) + (encode_pairs(rest) + tail)) by {
            assert forall|j: int| 0 <= j < b.len() - off - lk implies b.skip(off + lk)[j] == (
            encode_spec(value) + (encode_pairs(rest) + tail))[j] by {
                assert(b.skip(off + lk)[j] == b.skip(off)[j + lk]);
            }
        }
        lemma_round_trip_frame(value, encode_pairs(rest) + tail);
        lemma_encode_min_len(value);
        assert(off + lk + lv <= b.len());
        assert(b.skip(off + lk + lv) =~= encode_pairs(rest) + tail) by {
            assert forall|j: int| 0 <= j < b.len() - off - lk - lv implies b.skip(
                off + lk + lv,
            )[j] == (encode_pairs(rest) + tail)[j] by {
                assert(b.skip(off + lk + lv)[j] == b.skip(off + lk)[j + lv]);
            }
        }
        lemma_round_trip_frame(value, encode_pairs(rest) + tail);
        assert(decode_of(b.skip(off + lk)) == DecodeResult::Frame(value, lv));
        lemma_round_trip_entries(b, off + lk + lv, rest, tail);
        assert(seq![(key, value)] + rest =~= pairs);
        assert(decode_entries(b, off, pairs.len() as nat) == Ok::<
            (Seq<(Seq<u8>, FrameV)>, int),
            DecodeResult,
        >((pairs, off + encode_pairs(pairs).len())));
    }
}

/// Strict adjacent ordering extends to all pairs of positions.
#[verifier::spinoff_prover]
proof fn lemma_enc_lt_chain(els: Seq<FrameV>, i: int, j: int)
    requires
        0 <= i < j < els.len(),
        forall|x: int|
            0 <= x < els.len() - 1 ==> lex_lt(
                encode_spec(#[trigger] els[x]),
                encode_spec(els[x + 1]),
            ),
    ensures
        lex_lt(encode_spec(els[i]), encode_spec(els[j])),
    decreases j - i,
{
    if j == i + 1 {
    } else {
        lemma_enc_lt_chain(els, i, j - 1);
        lemma_lex_transitive(encode_spec(els[i]), encode_spec(els[j - 1]), encode_spec(els[j]));
    }
}

/// Inserting past everything smaller appends.
proof fn lemma_set_insert_all_lt(s: Seq<FrameV>, f: FrameV)
    requires
        forall|i: int| 0 <= i < s.len() ==> lex_lt(encode_spec(#[trigger] s[i]), encode_spec(f)),
    ensures
        set_insert(s, f) == s.push(f),
    decreases s.len(),
{
    if s.len() == 0 {
        assert(set_insert(s, f) =~= s.push(f));
    } else {
        lemma_lex_trichotomy(encode_spec(f), encode_spec(s[0]));
        assert forall|i: int| 0 <= i < s.drop_first().len() implies lex_lt(
            encode_spec(#[trigger] s.drop_first()[i]),
            encode_spec(f),
        ) by {
            assert(s.drop_first()[i] == s[i + 1]);
        }
        lemma_set_insert_all_lt(s.drop_first(), f);
        assert(seq![s[0]] + s.drop_first().push(f) =~= s.push(f));
    }
}

/// Canonicalizing an already canonical element run changes nothing.
pub proof fn lemma_set_canon_id(els: Seq<FrameV>)
    requires
        forall|i: int|
            0 <= i < els.len() - 1 ==> lex_lt(
                encode_spec(#[trigger] els[i]),
                encode_spec(els[i + 1]),
            ),
    ensures
        set_canon(els) == els,
    decreases els.len(),
{
    if els.len() > 0 {
        let front = els.drop_last();
        assert forall|i: int|
            0 <= i < front.len() - 1 implies lex_lt(
            encode_spec(#[trigger] front[i]),
            encode_spec(front[i + 1]),
        ) by {
            assert(front[i] == els[i]);
            assert(front[i + 1] == els[i + 1]);
        }
        lemma_set_canon_id(front);
        assert forall|i: int| 0 <= i < front.len() implies lex_lt(
            encode_spec(#[trigger] front[i]),
            encode_spec(els.last()),
        ) by {
            assert(front[i] == els[i]);
            lemma_enc_lt_chain(els, i, els.len() - 1);
        }
        lemma_set_insert_all_lt(front, els.last());
        assert(front.push(els.last()) =~= els);
    }
}

/// Strict adjacent key ordering extends to all pairs of positions.
proof fn lemma_key_lt_chain(pairs: Seq<(Seq<u8>, FrameV)>, i: int, j: int)
    requires
        0 <= i < j < pairs.len(),
        forall|x: int|
            0 <= x < pairs.len() - 1 ==> lex_lt((#[trigger] pairs[x]).0, pairs[x + 1].0),
    ensures
        lex_lt(pairs[i].0, pairs[j].0),
    decreases j - i,
{
    if j == i + 1 {
    } else {
        lemma_key_lt_chain(pairs, i, j - 1);
        lemma_lex_transitive(pairs[i].0, pairs[j - 1].0, pairs[j].0);
    }
}

/// Inserting past every smaller key appends.
proof fn lemma_map_insert_all_lt(s: Seq<(Seq<u8>, FrameV)>, k: Seq<u8>, v: FrameV)
    requires
        forall|i: int| 0 <= i < s.len() ==> lex_lt((#[trigger] s[i]).0, k),
    ensures
        map_insert(s, k, v) == s.push((k, v)),
    decreases s.len(),
{
    if s.len() == 0 {
        assert(map_insert(s, k, v) =~= s.push((k, v)));
    } else {
        lemma_lex_trichotomy(k, s[0].0);
        assert forall|i: int| 0 <= i < s.drop_first().len() implies lex_lt(
            (#[trigger] s.drop_first()[i]).0,
            k,
        ) by {
            assert(s.drop_first()[i] == s[i + 1]);
        }
        lemma_map_insert_all_lt(s.drop_first(), k, v);
        assert(seq![s[0]] + s.drop_first().push((k, v)) =~= s.push((k, v)));
    }
}

/// Canonicalizing an already canonical entry run changes nothing.
pub proof fn lemma_map_canon_id(pairs: Seq<(Seq<u8>, FrameV)>)
    requires
        forall|i: int|
            0 <= i < pairs.len() - 1 ==> lex_lt((#[trigger] pairs[i]).0, pairs[i + 1].0),
    ensures
        map_canon(pairs) == pairs,
    decreases pairs.len(),
{
    if pairs.len() > 0 {
        let front = pairs.drop_last();
        assert forall|i: int| 0 <= i < front.len() - 1 implies lex_lt(
            (#[trigger] front[i]).0,
            front[i + 1].0,
        ) by {
            assert(front[i] == pairs[i]);
            assert(front[i + 1] == pairs[i + 1]);
        }
        lemma_map_canon_id(front);
        assert forall|i: int| 0 <= i < front.len() implies lex_lt(
            (#[trigger] front[i]).0,
            pairs.last().0,
        ) by {
            assert(front[i] == pairs[i]);
            lemma_key_lt_chain(pairs, i, pairs.len() - 1);
        }
        lemma_map_insert_all_lt(front, pairs.last().0, pairs.last().1);
        assert(front.push(pairs.last()) =~= pairs);
    }
}

/// Round trip: a constructible frame value, encoded and decoded, yields
/// exactly itself, consuming exactly its encoding.
pub proof fn lemma_round_trip(v: FrameV)
    requires
        wf(v),
    ensures
        decode_of(encode_spec(v)) == DecodeResult::Frame(v, encode_spec(v).len() as int),
        crate::wire::len_of(encode_spec(v)) == LenResult::Complete(encode_spec(v).len() as int),
{
    assert(encode_spec(v) + Seq::<u8>::empty() =~= encode_spec(v));
    lemma_round_trip_frame(v, Seq::<u8>::empty());
    crate::wire::lemma_decode_len_agree(encode_spec(v));
}

// ---------------------------------------------------------------------------
// Incompleteness monotonicity: a frame boundary, once determined by a
// prefix, never moves when more bytes arrive; and an incomplete prefix can
// only complete at a boundary beyond the bytes already seen.
// ---------------------------------------------------------------------------
/// Appending to a sequence leaves its suffixes extended by the same bytes.
pub proof fn lemma_skip_concat(b: Seq<u8>, ext: Seq<u8>, off: int)
    requires
        0 <= off <= b.len(),
    ensures
        (b + ext).skip(off) =~= b.skip(off) + ext,
{
}

/// A CRLF found in a prefix is found at the same place after appending.
pub proof fn lemma_first_crlf_extend(b: Seq<u8>, ext: Seq<u8>, i: int)
    requires
        0 <= i,
    ensures
        first_crlf_from(b, i) matches Some(p) ==> first_crlf_from(b + ext, i) == Some(p),
    decreases b.len() - i,
{
    if i + 1 < b.len() {
        assert((b + ext)[i] == b[i]);
        assert((b + ext)[i + 1] == b[i + 1]);
        if !(b[i] == 13 && b[i + 1] == 10) {
            lemma_first_crlf_extend(b, ext, i + 1);
        }
    }
}

/// A header read from a prefix reads the same after appending.
pub proof fn lemma_header_extend(b: Seq<u8>, ext: Seq<u8>)
    ensures
        header_of(b) matches Ok(h) ==> header_of(b + ext) == Ok::<(int, int), LenResult>(h),
{
    if b.len() >= 3 {
        match first_crlf_from(b, 0) {
            Some(end) => {
                lemma_first_crlf_extend(b, ext, 0);
                crate::wire::lemma_first_crlf_bounds(b, 0);
                if 1 <= end && end + 2 <= b.len() {
                    assert((b + ext).subrange(1, end) =~= b.subrange(1, end));
                }
            },
            None => {},
        }
    }
}

/// A frame boundary found in a prefix stands after appending.
pub proof fn lemma_len_of_extend(b: Seq<u8>, ext: Seq<u8>)
    ensures
        len_of(b) matches LenResult::Complete(n) ==> len_of(b + ext) == LenResult::Complete(n),
    decreases b.len(), 0int, 0int,
{
    if b.len() > 0 {
        assert((b + ext)[0] == b[0]);
        assert((b + ext).len() >= b.len());
        lemma_first_crlf_extend(b, ext, 0);
        lemma_header_extend(b, ext);
        if b[0] == MARK_ARRAY || b[0] == MARK_SET || b[0] == MARK_MAP {
            match header_of(b) {
                Ok((end, n)) => {
                    if n >= 0 {
                        lemma_children_len_extend(b, ext, end + 2, n as nat);
                        lemma_children_len_extend(b, ext, end + 2, (2 * n) as nat);
                    }
                },
                Err(_) => {},
            }
        }
    }
}

/// A child-run boundary found in a prefix stands after appending.
pub proof fn lemma_children_len_extend(b: Seq<u8>, ext: Seq<u8>, off: int, k: nat)
    requires
        0 < off,
    ensures
        children_len(b, off, k) matches LenResult::Complete(n) ==> children_len(b + ext, off, k)
            == LenResult::Complete(n),
    decreases b.len() - off, 1int, k,
{
    if k > 0 && 0 < off && off <= b.len() {
        lemma_skip_concat(b, ext, off);
        lemma_len_of_extend(b.skip(off), ext);
        match len_of(b.skip(off)) {
            LenResult::Complete(l) => {
                crate::wire::lemma_len_of_bounds(b.skip(off));
                if 0 < l && off + l <= b.len() {
                    lemma_children_len_extend(b, ext, off + l, (k - 1) as nat);
                }
            },
            _ => {},
        }
    }
}

/// A frame decoded from a prefix decodes identically after appending:
/// appending never produces a different frame for the same boundary.
#[verifier::spinoff_prover]
#[verifier::rlimit(100)]
pub proof fn lemma_decode_of_extend(b: Seq<u8>, ext: Seq<u8>)
    ensures
        decode_of(b) matches DecodeResult::Frame(fv, n) ==> decode_of(b + ext)
            == DecodeResult::Frame(fv, n),
    decreases b.len(), 0int, 0int,
{
    if b.len() > 0 {
        assert((b + ext)[0] == b[0]);
        lemma_first_crlf_extend(b, ext, 0);
        lemma_header_extend(b, ext);
        match first_crlf_from(b, 0) {
            Some(p) => {
                crate::wire::lemma_first_crlf_bounds(b, 0);
                if p >= 1 {
                    assert((b + ext).subrange(1, p) =~= b.subrange(1, p));
                }
            },
            None => {},
        }
        if b[0] == MARK_BULK {
            match header_of(b) {
                Ok((end, n)) => {
                    if 0 <= n && end + 2 + n + 2 <= b.len() {
                        assert((b + ext)[end + 2 + n] == b[end + 2 + n]);
                        assert((b + ext)[end + 2 + n + 1] == b[end + 2 + n + 1]);
                        assert((b + ext).subrange(end + 2, end + 2 + n) =~= b.subrange(
                            end + 2,
                            end + 2 + n,
                        ));
                    }
                },
                Err(_) => {},
            }
        } else if b[0] == MARK_ARRAY || b[0] == MARK_SET {
            match header_of(b) {
                Ok((end, n)) => {
                    if n >= 0 {
                        lemma_decode_children_extend(b, ext, end + 2, n as nat);
                        crate::wire::lemma_decode_children_err_shape(b, end + 2, n as nat);
                    }
                },
                Err(_) => {},
            }
        } else if b[0] == MARK_MAP {
            match header_of(b) {
                Ok((end, n)) => {
                    if n >= 0 {
                        lemma_decode_entries_extend(b, ext, end + 2, n as nat);
                        crate::wire::lemma_decode_entries_err_shape(b, end + 2, n as nat);
                    }
                },
                Err(_) => {},
            }
        }
    }
}

/// Children decoded from a prefix decode identically after appending.
pub proof fn lemma_decode_children_extend(b: Seq<u8>, ext: Seq<u8>, off: int, k: nat)
    requires
        0 < off,
    ensures
        decode_children(b, off, k) matches Ok(r) ==> decode_children(b + ext, off, k) == Ok::<
            (Seq<FrameV>, int),
            DecodeResult,
        >(r),
    decreases b.len() - off, 1int, k,
{
    if k > 0 && 0 < off && off <= b.len() {
        lemma_skip_concat(b, ext, off);
        lemma_decode_of_extend(b.skip(off), ext);
        match decode_of(b.skip(off)) {
            DecodeResult::Frame(f, l) => {
                if 0 < l && off + l <= b.len() {
                    lemma_decode_children_extend(b, ext, off + l, (k - 1) as nat);
                }
            },
            _ => {},
        }
    }
}

/// Entries decoded from a prefix decode identically after appending.
pub proof fn lemma_decode_entries_extend(b: Seq<u8>, ext: Seq<u8>, off: int, k: nat)
    requires
        0 < off,
    ensures
        decode_entries(b, off, k) matches Ok(r) ==> decode_entries(b + ext, off, k) == Ok::<
            (Seq<(Seq<u8>, FrameV)>, int),
            DecodeResult,
        >(r),
    decreases b.len() - off, 1int, k,
{
    if k > 0 && 0 < off && off <= b.len() {
        lemma_skip_concat(b, ext, off);
        lemma_decode_of_extend(b.skip(off), ext);
        if off < b.len() {
            assert((b + ext)[off] == b[off]);
        }
        if !(off < b.len() && b[off] != MARK_SIMPLE) {
            match decode_of(b.skip(off)) {
                DecodeResult::Frame(kf, l) => {
                    if 0 < l && off + l <= b.len() {
                        match kf {
                            FrameV::SimpleString(_) => {
                                lemma_skip_concat(b, ext, off + l);
                                lemma_decode_of_extend(b.skip(off + l), ext);
                                match decode_of(b.skip(off + l)) {
                                    DecodeResult::Frame(vf, l2) => {
                                        if 0 < l2 && off + l + l2 <= b.len() {
                                            lemma_decode_entries_extend(
                                                b,
                                                ext,
                                                off + l + l2,
                                                (k - 1) as nat,
                                            );
                                        }
                                    },
                                    _ => {},
                                }
                            },
                            _ => {},
                        }
                    }
                },
                _ => {},
            }
        }
    }
}

/// A CRLF found before a cut survives the cut.
proof fn lemma_first_crlf_restrict(b: Seq<u8>, m: int, i: int)
    requires
        0 <= i,
        0 <= m <= b.len(),
    ensures
        (match first_crlf_from(b, i) {
            Some(p) => p + 2 <= m ==> first_crlf_from(b.take(m), i) == Some(p),
            None => true,
        }),
    decreases b.len() - i,
{
    if i + 1 < b.len() {
        if i + 1 < m {
            assert(b.take(m)[i] == b[i]);
            assert(b.take(m)[i + 1] == b[i + 1]);
        }
        if !(b[i] == 13 && b[i + 1] == 10) {
            lemma_first_crlf_restrict(b, m, i + 1);
            crate::wire::lemma_first_crlf_bounds(b, i);
        }
    }
}

/// A header read from the whole reads the same from any cut that keeps it.
proof fn lemma_header_restrict(b: Seq<u8>, m: int)
    requires
        0 <= m <= b.len(),
    ensures
        (match header_of(b) {
            Ok((end, n)) => end + 2 <= m ==> header_of(b.take(m)) == Ok::<(int, int), LenResult>(
                (end, n),
            ),
            Err(_) => true,
        }),
{
    if b.len() >= 3 {
        match first_crlf_from(b, 0) {
            Some(end) => {
                lemma_first_crlf_restrict(b, m, 0);
                crate::wire::lemma_first_crlf_bounds(b, 0);
                if 1 <= end && end + 2 <= b.len() && end + 2 <= m {
                    assert(b.take(m).subrange(1, end) =~= b.subrange(1, end));
                }
            },
            None => {},
        }
    }
}

/// The length oracle's answer depends only on the bytes of the frame it
/// found: cutting anywhere past the boundary keeps the answer.
pub proof fn lemma_len_of_restrict(b: Seq<u8>, m: int)
    requires
        0 <= m <= b.len(),
    ensures
        (match len_of(b) {
            LenResult::Complete(n) => n <= m ==> len_of(b.take(m)) == LenResult::Complete(n),
            _ => true,
        }),
    decreases b.len(), 0int, 0int,
{
    crate::wire::lemma_len_of_bounds(b);
    if b.len() > 0 {
        if m > 0 {
            assert(b.take(m)[0] == b[0]);
        }
        lemma_first_crlf_restrict(b, m, 0);
        lemma_header_restrict(b, m);
        if b[0] == MARK_ARRAY || b[0] == MARK_SET || b[0] == MARK_MAP {
            match header_of(b) {
                Ok((end, n)) => {
                    if n >= 0 {
                        lemma_children_len_restrict(b, m, end + 2, n as nat);
                        lemma_children_len_restrict(b, m, end + 2, (2 * n) as nat);
                    }
                },
                Err(_) => {},
            }
        }
    }
}

/// Cutting past a child run's end keeps its measured boundary.
proof fn lemma_children_len_restrict(b: Seq<u8>, m: int, off: int, k: nat)
    requires
        0 <= m <= b.len(),
        0 < off,
    ensures
        (match children_len(b, off, k) {
            LenResult::Complete(n) => n <= m ==> children_len(b.take(m), off, k)
                == LenResult::Complete(n),
            _ => true,
        }),
    decreases b.len() - off, 1int, k,
{
    if k > 0 && 0 < off && off <= b.len() {
        crate::wire::lemma_children_len_bounds(b, off, k);
        match len_of(b.skip(off)) {
            LenResult::Complete(l) => {
                crate::wire::lemma_len_of_bounds(b.skip(off));
                if 0 < l && off + l <= b.len() {
                    crate::wire::lemma_children_len_bounds(b, off + l, (k - 1) as nat);
                    match children_len(b, off + l, (k - 1) as nat) {
                        LenResult::Complete(n) => {
                            if n <= m {
                                assert(off + l <= n);
                                lemma_len_of_restrict(b.skip(off), m - off);
                                assert(b.take(m).skip(off) =~= b.skip(off).take(m - off));
                                lemma_children_len_restrict(b, m, off + l, (k - 1) as nat);
                            }
                        },
                        _ => {},
                    }
                }
            },
            _ => {},
        }
    }
}

/// Incompleteness monotonicity: while the buffered bytes are incomplete,
/// appending more either stays incomplete or completes the frame at a
/// boundary beyond everything buffered so far; by `lemma_len_of_extend`
/// and `lemma_decode_of_extend`, a boundary and frame once determined
/// never change under further appends.
pub proof fn lemma_incomplete_monotone(b: Seq<u8>, ext: Seq<u8>)
    requires
        len_of(b) == LenResult::Partial,
    ensures
        (match len_of(b + ext) {
            LenResult::Complete(n) => n > b.len(),
            _ => true,
        }),
{
    match len_of(b + ext) {
        LenResult::Complete(n) => {
            crate::wire::lemma_len_of_bounds(b + ext);
            if n <= b.len() {
                lemma_len_of_restrict(b + ext, b.len() as int);
                assert((b + ext).take(b.len() as int) =~= b);
                assert(len_of(b) == LenResult::Complete(n));
            }
        },
        _ => {},
    }
}

// ---------------------------------------------------------------------------
// Idempotent canonicalization: the canonical order of a decoded set is a
// pure function of which elements arrived, not of their wire order or of
// duplicate placement.
// ---------------------------------------------------------------------------
/// Two well-formed frames with the same encoding are the same frame.
pub proof fn lemma_encode_injective(a: FrameV, b: FrameV)
    requires
        wf(a),
        wf(b),
        encode_spec(a) == encode_spec(b),
    ensures
        a == b,
{
    lemma_round_trip(a);
    lemma_round_trip(b);
}

/// Elements strictly ascend by encoding through the whole run.
pub open spec fn enc_sorted(s: Seq<FrameV>) -> bool {
    forall|i: int, j: int|
        0 <= i < j < s.len() ==> lex_lt(encode_spec(#[trigger] s[i]), encode_spec(#[trigger] s[j]))
}

/// Every element of the run is well formed.
pub open spec fn all_wf(s: Seq<FrameV>) -> bool {
    forall|i: int| 0 <= i < s.len() ==> wf(#[trigger] s[i])
}

/// Inserting into a sorted, well-formed run keeps it sorted and makes its
/// members exactly the old members and the new element.
pub proof fn lemma_set_insert_props(s: Seq<FrameV>, f: FrameV)
    requires
        enc_sorted(s),
        all_wf(s),
        wf(f),
    ensures
        enc_sorted(set_insert(s, f)),
        all_wf(set_insert(s, f)),
        set_insert(s, f).len() <= s.len() + 1,
        forall|x: FrameV| set_insert(s, f).contains(x) <==> (s.contains(x) || x == f),
    decreases s.len(),
{
    let r = set_insert(s, f);
    if s.len() == 0 {
        assert(r == seq![f]);
        assert(r[0] == f);
        assert forall|x: FrameV| r.contains(x) implies (s.contains(x) || x == f) by {
            let i = choose|i: int| 0 <= i < r.len() && r[i] == x;
            assert(r[i] == f);
        }
        assert(r.contains(f)) by {
            assert(r[0] == f);
        }
    } else if encode_spec(f) == encode_spec(s[0]) {
        assert(wf(s[0]));
        lemma_encode_injective(f, s[0]);
        assert(r == s);
        assert(s.contains(f)) by {
            assert(s[0] == f);
        }
    } else if lex_lt(encode_spec(f), encode_spec(s[0])) {
        assert(r == seq![f] + s);
        assert forall|i: int, j: int|
            0 <= i < j < r.len() implies lex_lt(
            encode_spec(#[trigger] r[i]),
            encode_spec(#[trigger] r[j]),
        ) by {
            if i == 0 {
                assert(r[0] == f);
                assert(r[j] == s[j - 1]);
                if j - 1 > 0 {
                    assert(lex_lt(encode_spec(s[0]), encode_spec(s[j - 1])));
                    lemma_lex_transitive(
                        encode_spec(f),
                        encode_spec(s[0]),
                        encode_spec(s[j - 1]),
                    );
                }
            } else {
                assert(r[i] == s[i - 1]);
                assert(r[j] == s[j - 1]);
            }
        }
        assert forall|x: FrameV| r.contains(x) implies (s.contains(x) || x == f) by {
            let i = choose|i: int| 0 <= i < r.len() && r[i] == x;
            if i > 0 {
                assert(s[i - 1] == x);
            }
        }
        assert forall|x: FrameV| s.contains(x) || x == f implies r.contains(x) by {
            if s.contains(x) {
                let i = choose|i: int| 0 <= i < s.len() && s[i] == x;
                assert(r[i + 1] == x);
            } else {
                assert(r[0] == x);
            }
        }
    } else {
        lemma_lex_trichotomy(encode_spec(f), encode_spec(s[0]));
        assert(lex_lt(encode_spec(s[0]), encode_spec(f)));
        let t = s.drop_first();
        assert(enc_sorted(t)) by {
            assert forall|i: int, j: int|
                0 <= i < j < t.len() implies lex_lt(
                encode_spec(#[trigger] t[i]),
                encode_spec(#[trigger] t[j]),
            ) by {
                assert(t[i] == s[i + 1]);
                assert(t[j] == s[j + 1]);
            }
        }
        assert(all_wf(t)) by {
            assert forall|i: int| 0 <= i < t.len() implies wf(#[trigger] t[i]) by {
                assert(t[i] == s[i + 1]);
            }
        }
        lemma_set_insert_props(t, f);
        let rt = set_insert(t, f);
        assert(forall|x: FrameV| rt.contains(x) <==> (t.contains(x) || x == f));
        assert(r == seq![s[0]] + rt);
        assert forall|i: int, j: int|
            0 <= i < j < r.len() implies lex_lt(
            encode_spec(#[trigger] r[i]),
            encode_spec(#[trigger] r[j]),
        ) by {
            if i == 0 {
                assert(r[j] == rt[j - 1]);
                assert(rt.contains(rt[j - 1]));
                if rt[j - 1] == f {
                    assert(lex_lt(encode_spec(s[0]), encode_spec(f)));
                } else {
                    assert(t.contains(rt[j - 1]));
                    let k = choose|k: int| 0 <= k < t.len() && t[k] == rt[j - 1];
                    assert(t[k] == s[k + 1]);
                    assert(lex_lt(encode_spec(s[0]), encode_spec(s[k + 1])));
                }
            } else {
                assert(r[i] == rt[i - 1]);
                assert(r[j] == rt[j - 1]);
            }
        }
        assert forall|x: FrameV| r.contains(x) implies (s.contains(x) || x == f) by {
            let i = choose|i: int| 0 <= i < r.len() && r[i] == x;
            if i == 0 {
                assert(s[0] == x);
            } else {
                assert(rt[i - 1] == x);
                assert(rt.contains(x));
                if t.contains(x) {
                    let k = choose|k: int| 0 <= k < t.len() && t[k] == x;
                    assert(s[k + 1] == x);
                }
            }
        }
        assert forall|x: FrameV| s.contains(x) || x == f implies r.contains(x) by {
            if s.contains(x) {
                let i = choose|i: int| 0 <= i < s.len() && s[i] == x;
                if i == 0 {
                    assert(r[0] == x);
                } else {
                    assert(t[i - 1] == x);
                    assert(t.contains(x));
                    assert(rt.contains(x));
                    let k = choose|k: int| 0 <= k < rt.len() && rt[k] == x;
                    assert(r[k + 1] == x);
                }
            } else {
                assert(rt.contains(x));
                let k = choose|k: int| 0 <= k < rt.len() && rt[k] == x;
                assert(r[k + 1] == x);
            }
        }
        assert forall|i: int| 0 <= i < r.len() implies wf(#[trigger] r[i]) by {
            if i > 0 {
                assert(r[i] == rt[i - 1]);
            }
        }
    }
}

/// A canonicalized run is sorted and well formed, and its members are
/// exactly the elements that were inserted.
pub proof fn lemma_set_canon_props(els: Seq<FrameV>)
    requires
        all_wf(els),
    ensures
        enc_sorted(set_canon(els)),
        all_wf(set_canon(els)),
        set_canon(els).len() <= els.len(),
        forall|x: FrameV| set_canon(els).contains(x) <==> els.contains(x),
    decreases els.len(),
{
    if els.len() == 0 {
    } else {
        let front = els.drop_last();
        assert(all_wf(front)) by {
            assert forall|i: int| 0 <= i < front.len() implies wf(#[trigger] front[i]) by {
                assert(front[i] == els[i]);
            }
        }
        lemma_set_canon_props(front);
        assert(wf(els.last()));
        lemma_set_insert_props(set_canon(front), els.last());
        assert forall|x: FrameV| set_canon(els).contains(x) <==> els.contains(x) by {
            assert(set_canon(els) == set_insert(set_canon(front), els.last()));
            assert(els.contains(x) <==> (front.contains(x) || x == els.last())) by {
                if els.contains(x) {
                    let i = choose|i: int| 0 <= i < els.len() && els[i] == x;
                    if i < els.len() - 1 {
                        assert(front[i] == x);
                    }
                }
                if front.contains(x) {
                    let i = choose|i: int| 0 <= i < front.len() && front[i] == x;
                    assert(els[i] == x);
                }
                if x == els.last() {
                    assert(els[els.len() - 1] == x);
                }
            }
        }
    }
}

/// Two sorted runs with the same members are the same run.
pub proof fn lemma_enc_sorted_unique(s1: Seq<FrameV>, s2: Seq<FrameV>)
    requires
        enc_sorted(s1),
        enc_sorted(s2),
        forall|x: FrameV| s1.contains(x) <==> s2.contains(x),
    ensures
        s1 == s2,
    decreases s1.len(),
{
    if s1.len() == 0 {
        if s2.len() > 0 {
            assert(s2.contains(s2[0]));
            assert(s1.contains(s2[0]));
        }
        assert(s1 =~= s2);
    } else {
        assert(s1.contains(s1[0]));
        assert(s2.contains(s1[0]));
        let j = choose|j: int| 0 <= j < s2.len() && s2[j] == s1[0];
        assert(s2.contains(s2[0]));
        assert(s1.contains(s2[0]));
        let k = choose|k: int| 0 <= k < s1.len() && s1[k] == s2[0];
        if j > 0 {
            assert(lex_lt(encode_spec(s2[0]), encode_spec(s2[j])));
            if k > 0 {
                assert(lex_lt(encode_spec(s1[0]), encode_spec(s1[k])));
                lemma_lex_transitive(
                    encode_spec(s1[0]),
                    encode_spec(s2[0]),
                    encode_spec(s1[0]),
                );
                lemma_lex_trichotomy(encode_spec(s1[0]), encode_spec(s1[0]));
            } else {
                lemma_lex_trichotomy(encode_spec(s1[0]), encode_spec(s2[0]));
            }
        }
        assert(s1[0] == s2[0]);
        let t1 = s1.drop_first();
        let t2 = s2.drop_first();
        assert(enc_sorted(t1) && enc_sorted(t2)) by {
            assert forall|i: int, j2: int|
                0 <= i < j2 < t1.len() implies lex_lt(
                encode_spec(#[trigger] t1[i]),
                encode_spec(#[trigger] t1[j2]),
            ) by {
                assert(t1[i] == s1[i + 1]);
                assert(t1[j2] == s1[j2 + 1]);
            }
            assert forall|i: int, j2: int|
                0 <= i < j2 < t2.len() implies lex_lt(
                encode_spec(#[trigger] t2[i]),
                encode_spec(#[trigger] t2[j2]),
            ) by {
                assert(t2[i] == s2[i + 1]);
                assert(t2[j2] == s2[j2 + 1]);
            }
        }
        assert forall|x: FrameV| t1.contains(x) <==> t2.contains(x) by {
            lemma_sorted_tail_membership(s1, x);
            lemma_sorted_tail_membership(s2, x);
        }
        lemma_enc_sorted_unique(t1, t2);
        assert forall|i: int| 0 <= i < s1.len() implies s1[i] == s2[i] by {
            if i > 0 {
                assert(t1[i - 1] == s1[i]);
                assert(t2[i - 1] == s2[i]);
            }
        }
        assert(s1.len() == t1.len() + 1);
        assert(s2.len() == t2.len() + 1);
        assert(s1 =~= s2);
    }
}

/// In a sorted run, the tail's members are the members other than the head.
proof fn lemma_sorted_tail_membership(s: Seq<FrameV>, x: FrameV)
    requires
        enc_sorted(s),
        s.len() >= 1,
    ensures
        s.drop_first().contains(x) <==> (s.contains(x) && x != s[0]),
{
    let t = s.drop_first();
    if t.contains(x) {
        let i = choose|i: int| 0 <= i < t.len() && t[i] == x;
        assert(s[i + 1] == x);
        assert(lex_lt(encode_spec(s[0]), encode_spec(s[i + 1])));
        lemma_lex_trichotomy(encode_spec(s[0]), encode_spec(s[i + 1]));
        assert(x != s[0]);
    }
    if s.contains(x) && x != s[0] {
        let i = choose|i: int| 0 <= i < s.len() && s[i] == x;
        assert(i > 0);
        assert(t[i - 1] == x);
    }
}

/// Idempotent canonicalization: runs holding the same elements, in any
/// wire order and with any duplicate placement, canonicalize to the same
/// run.
pub proof fn lemma_set_canon_permutation(els1: Seq<FrameV>, els2: Seq<FrameV>)
    requires
        all_wf(els1),
        all_wf(els2),
        forall|x: FrameV| els1.contains(x) <==> els2.contains(x),
    ensures
        set_canon(els1) == set_canon(els2),
{
    lemma_set_canon_props(els1);
    lemma_set_canon_props(els2);
    assert forall|x: FrameV| set_canon(els1).contains(x) <==> set_canon(els2).contains(x) by {
        assert(set_canon(els1).contains(x) <==> els1.contains(x));
        assert(set_canon(els2).contains(x) <==> els2.contains(x));
        assert(els1.contains(x) <==> els2.contains(x));
    }
    lemma_enc_sorted_unique(set_canon(els1), set_canon(els2));
}

/// Entry keys strictly ascend through the whole run.
pub open spec fn key_sorted(s: Seq<(Seq<u8>, FrameV)>) -> bool {
    forall|i: int, j: int|
        0 <= i < j < s.len() ==> lex_lt((#[trigger] s[i]).0, (#[trigger] s[j]).0)
}

/// No two entries share a key.
pub open spec fn unique_keys(s: Seq<(Seq<u8>, FrameV)>) -> bool {
    forall|i: int, j: int| 0 <= i < j < s.len() ==> (#[trigger] s[i]).0 != (#[trigger] s[j]).0
}

/// Inserting a fresh key into a key-sorted run keeps it sorted and makes
/// its members exactly the old members and the new entry.
pub proof fn lemma_map_insert_props(s: Seq<(Seq<u8>, FrameV)>, k: Seq<u8>, v: FrameV)
    requires
        key_sorted(s),
        forall|i: int| 0 <= i < s.len() ==> (#[trigger] s[i]).0 != k,
    ensures
        key_sorted(map_insert(s, k, v)),
        forall|p: (Seq<u8>, FrameV)| map_insert(s, k, v).contains(p) <==> (s.contains(p) || p == (
        k,
        v,
        )),
    decreases s.len(),
{
    let r = map_insert(s, k, v);
    if s.len() == 0 {
        assert(r == seq![(k, v)]);
        assert(r[0] == (k, v));
        assert forall|p: (Seq<u8>, FrameV)| r.contains(p) implies (s.contains(p) || p == (
        k,
        v,
        )) by {
            let i = choose|i: int| 0 <= i < r.len() && r[i] == p;
            assert(r[i] == (k, v));
        }
        assert(r.contains((k, v))) by {
            assert(r[0] == (k, v));
        }
    } else if k == s[0].0 {
        assert(s[0].0 != k);
    } else if lex_lt(k, s[0].0) {
        assert(r == seq![(k, v)] + s);
        assert forall|i: int, j: int|
            0 <= i < j < r.len() implies lex_lt((#[trigger] r[i]).0, (#[trigger] r[j]).0) by {
            if i == 0 {
                assert(r[0] == (k, v));
                assert(r[j] == s[j - 1]);
                if j - 1 > 0 {
                    assert(lex_lt(s[0].0, s[j - 1].0));
                    lemma_lex_transitive(k, s[0].0, s[j - 1].0);
                }
            } else {
                assert(r[i] == s[i - 1]);
                assert(r[j] == s[j - 1]);
            }
        }
        assert forall|p: (Seq<u8>, FrameV)| r.contains(p) implies (s.contains(p) || p == (
        k,
        v,
        )) by {
            let i = choose|i: int| 0 <= i < r.len() && r[i] == p;
            if i > 0 {
                assert(s[i - 1] == p);
            }
        }
        assert forall|p: (Seq<u8>, FrameV)| s.contains(p) || p == ((k, v)) implies r.contains(
            p,
        ) by {
            if s.contains(p) {
                let i = choose|i: int| 0 <= i < s.len() && s[i] == p;
                assert(r[i + 1] == p);
            } else {
                assert(r[0] == p);
            }
        }
    } else {
        lemma_lex_trichotomy(k, s[0].0);
        assert(lex_lt(s[0].0, k));
        let t = s.drop_first();
        assert(key_sorted(t)) by {
            assert forall|i: int, j: int|
                0 <= i < j < t.len() implies lex_lt((#[trigger] t[i]).0, (#[trigger] t[j]).0) by {
                assert(t[i] == s[i + 1]);
                assert(t[j] == s[j + 1]);
            }
        }
        assert forall|i: int| 0 <= i < t.len() implies (#[trigger] t[i]).0 != k by {
            assert(t[i] == s[i + 1]);
        }
        lemma_map_insert_props(t, k, v);
        let rt = map_insert(t, k, v);
        assert(forall|p: (Seq<u8>, FrameV)| rt.contains(p) <==> (t.contains(p) || p == (k, v)));
        assert(r == seq![s[0]] + rt);
        assert forall|i: int, j: int|
            0 <= i < j < r.len() implies lex_lt((#[trigger] r[i]).0, (#[trigger] r[j]).0) by {
            if i == 0 {
                assert(r[j] == rt[j - 1]);
                assert(rt.contains(rt[j - 1]));
                if rt[j - 1] == ((k, v)) {
                    assert(lex_lt(s[0].0, k));
                } else {
                    assert(t.contains(rt[j - 1]));
                    let x = choose|x: int| 0 <= x < t.len() && t[x] == rt[j - 1];
                    assert(t[x] == s[x + 1]);
                    assert(lex_lt(s[0].0, s[x + 1].0));
                }
            } else {
                assert(r[i] == rt[i - 1]);
                assert(r[j] == rt[j - 1]);
            }
        }
        assert forall|p: (Seq<u8>, FrameV)| r.contains(p) implies (s.contains(p) || p == (
        k,
        v,
        )) by {
            let i = choose|i: int| 0 <= i < r.len() && r[i] == p;
            if i == 0 {
                assert(s[0] == p);
            } else {
                assert(rt[i - 1] == p);
                assert(rt.contains(p));
                if t.contains(p) {
                    let x = choose|x: int| 0 <= x < t.len() && t[x] == p;
                    assert(s[x + 1] == p);
                }
            }
        }
        assert forall|p: (Seq<u8>, FrameV)| s.contains(p) || p == ((k, v)) implies r.contains(
            p,
        ) by {
            if s.contains(p) {
                let i = choose|i: int| 0 <= i < s.len() && s[i] == p;
                if i == 0 {
                    assert(r[0] == p);
                } else {
                    assert(t[i - 1] == p);
                    assert(t.contains(p));
                    assert(rt.contains(p));
                    let x = choose|x: int| 0 <= x < rt.len() && rt[x] == p;
                    assert(r[x + 1] == p);
                }
            } else {
                assert(rt.contains(p));
                let x = choose|x: int| 0 <= x < rt.len() && rt[x] == p;
                assert(r[x + 1] == p);
            }
        }
    }
}

/// A canonicalized entry run with unique wire keys is key-sorted and holds
/// exactly the entries that arrived.
pub proof fn lemma_map_canon_props(pairs: Seq<(Seq<u8>, FrameV)>)
    requires
        unique_keys(pairs),
    ensures
        key_sorted(map_canon(pairs)),
        forall|p: (Seq<u8>, FrameV)| map_canon(pairs).contains(p) <==> pairs.contains(p),
    decreases pairs.len(),
{
    if pairs.len() > 0 {
        let front = pairs.drop_last();
        let last = pairs.last();
        assert(unique_keys(front)) by {
            assert forall|i: int, j: int|
                0 <= i < j < front.len() implies (#[trigger] front[i]).0 != (
            #[trigger] front[j]).0 by {
                assert(front[i] == pairs[i]);
                assert(front[j] == pairs[j]);
            }
        }
        lemma_map_canon_props(front);
        let cf = map_canon(front);
        assert forall|i: int| 0 <= i < cf.len() implies (#[trigger] cf[i]).0 != last.0 by {
            assert(cf.contains(cf[i]));
            assert(front.contains(cf[i]));
            let x = choose|x: int| 0 <= x < front.len() && front[x] == cf[i];
            assert(pairs[x] == cf[i]);
            assert(pairs[pairs.len() - 1] == last);
            assert(pairs[x].0 != pairs[pairs.len() - 1].0);
        }
        lemma_map_insert_props(cf, last.0, last.1);
        assert(map_canon(pairs) == map_insert(cf, last.0, last.1));
        assert forall|p: (Seq<u8>, FrameV)| map_canon(pairs).contains(p) <==> pairs.contains(
            p,
        ) by {
            assert(map_insert(cf, last.0, last.1).contains(p) <==> (cf.contains(p) || p == (
            last.0,
            last.1,
            )));
            assert(pairs.contains(p) <==> (front.contains(p) || p == last)) by {
                if pairs.contains(p) {
                    let i = choose|i: int| 0 <= i < pairs.len() && pairs[i] == p;
                    if i < pairs.len() - 1 {
                        assert(front[i] == p);
                    }
                }
                if front.contains(p) {
                    let i = choose|i: int| 0 <= i < front.len() && front[i] == p;
                    assert(pairs[i] == p);
                }
                if p == last {
                    assert(pairs[pairs.len() - 1] == p);
                }
            }
            assert(p == ((last.0, last.1)) <==> p == last);
        }
    }
}

/// Two key-sorted runs with the same members are the same run.
pub proof fn lemma_key_sorted_unique(s1: Seq<(Seq<u8>, FrameV)>, s2: Seq<(Seq<u8>, FrameV)>)
    requires
        key_sorted(s1),
        key_sorted(s2),
        forall|p: (Seq<u8>, FrameV)| s1.contains(p) <==> s2.contains(p),
    ensures
        s1 == s2,
    decreases s1.len(),
{
    if s1.len() == 0 {
        if s2.len() > 0 {
            assert(s2.contains(s2[0]));
            assert(s1.contains(s2[0]));
        }
        assert(s1 =~= s2);
    } else {
        assert(s1.contains(s1[0]));
        assert(s2.contains(s1[0]));
        let j = choose|j: int| 0 <= j < s2.len() && s2[j] == s1[0];
        assert(s2.contains(s2[0]));
        assert(s1.contains(s2[0]));
        let k = choose|k: int| 0 <= k < s1.len() && s1[k] == s2[0];
        if j > 0 {
            assert(lex_lt(s2[0].0, s2[j].0));
            if k > 0 {
                assert(lex_lt(s1[0].0, s1[k].0));
                lemma_lex_transitive(s1[0].0, s2[0].0, s1[0].0);
                lemma_lex_trichotomy(s1[0].0, s1[0].0);
            } else {
                lemma_lex_trichotomy(s1[0].0, s2[0].0);
            }
        }
        assert(s1[0] == s2[0]);
        let t1 = s1.drop_first();
        let t2 = s2.drop_first();
        assert(key_sorted(t1) && key_sorted(t2)) by {
            assert forall|i: int, j2: int|
                0 <= i < j2 < t1.len() implies lex_lt((#[trigger] t1[i]).0, (#[trigger] t1[j2]).0) by {
                assert(t1[i] == s1[i + 1]);
                assert(t1[j2] == s1[j2 + 1]);
            }
            assert forall|i: int, j2: int|
                0 <= i < j2 < t2.len() implies lex_lt((#[trigger] t2[i]).0, (#[trigger] t2[j2]).0) by {
                assert(t2[i] == s2[i + 1]);
                assert(t2[j2] == s2[j2 + 1]);
            }
        }
        assert forall|p: (Seq<u8>, FrameV)| t1.contains(p) <==> t2.contains(p) by {
            lemma_key_sorted_tail_membership(s1, p);
            lemma_key_sorted_tail_membership(s2, p);
        }
        lemma_key_sorted_unique(t1, t2);
        assert forall|i: int| 0 <= i < s1.len() implies s1[i] == s2[i] by {
            if i > 0 {
                assert(t1[i - 1] == s1[i]);
                assert(t2[i - 1] == s2[i]);
            }
        }
        assert(s1.len() == t1.len() + 1);
        assert(s2.len() == t2.len() + 1);
        assert(s1 =~= s2);
    }
}

/// In a key-sorted run, the tail's members are the members other than the
/// head.
proof fn lemma_key_sorted_tail_membership(s: Seq<(Seq<u8>, FrameV)>, p: (Seq<u8>, FrameV))
    requires
        key_sorted(s),
        s.len() >= 1,
    ensures
        s.drop_first().contains(p) <==> (s.contains(p) && p != s[0]),
{
    let t = s.drop_first();
    if t.contains(p) {
        let i = choose|i: int| 0 <= i < t.len() && t[i] == p;
        assert(s[i + 1] == p);
        assert(lex_lt(s[0].0, s[i + 1].0));
        lemma_lex_trichotomy(s[0].0, s[i + 1].0);
        assert(p != s[0]);
    }
    if s.contains(p) && p != s[0] {
        let i = choose|i: int| 0 <= i < s.len() && s[i] == p;
        assert(i > 0);
        assert(t[i - 1] == p);
    }
}

/// Idempotent canonicalization of maps: entry runs with unique keys and
/// the same entries, in any wire order, canonicalize to the same run.
pub proof fn lemma_map_canon_permutation(
    pairs1: Seq<(Seq<u8>, FrameV)>,
    pairs2: Seq<(Seq<u8>, FrameV)>,
)
    requires
        unique_keys(pairs1),
        unique_keys(pairs2),
        forall|p: (Seq<u8>, FrameV)| pairs1.contains(p) <==> pairs2.contains(p),
    ensures
        map_canon(pairs1) == map_canon(pairs2),
{
    lemma_map_canon_props(pairs1);
    lemma_map_canon_props(pairs2);
    assert forall|p: (Seq<u8>, FrameV)|
        map_canon(pairs1).contains(p) <==> map_canon(pairs2).contains(p) by {
        assert(map_canon(pairs1).contains(p) <==> pairs1.contains(p));
        assert(map_canon(pairs2).contains(p) <==> pairs2.contains(p));
        assert(pairs1.contains(p) <==> pairs2.contains(p));
    }
    lemma_key_sorted_unique(map_canon(pairs1), map_canon(pairs2));
}

// ---------------------------------------------------------------------------
// Decoded frames are constructible: everything the decoder builds satisfies
// the well-formedness that the round-trip law asks for, so a frame that
// arrived via decode re-encodes and decodes back to itself.
// ---------------------------------------------------------------------------
/// Replacing or inserting keeps a key-sorted run key-sorted; every entry
/// of the result was there before or is the written entry.
pub proof fn lemma_map_insert_general(s: Seq<(Seq<u8>, FrameV)>, k: Seq<u8>, v: FrameV)
    requires
        key_sorted(s),
    ensures
        key_sorted(map_insert(s, k, v)),
        map_insert(s, k, v).len() <= s.len() + 1,
        forall|p: (Seq<u8>, FrameV)| map_insert(s, k, v).contains(p) ==> (s.contains(p) || p == (
        k,
        v,
        )),
    decreases s.len(),
{
    let r = map_insert(s, k, v);
    if s.len() == 0 {
        assert forall|p: (Seq<u8>, FrameV)| r.contains(p) implies (s.contains(p) || p == (
        k,
        v,
        )) by {
            let i = choose|i: int| 0 <= i < r.len() && r[i] == p;
            assert(r[i] == (k, v));
        }
    } else if k == s[0].0 {
        assert(r == seq![(k, v)] + s.drop_first());
        assert forall|i: int, j: int|
            0 <= i < j < r.len() implies lex_lt((#[trigger] r[i]).0, (#[trigger] r[j]).0) by {
            if i == 0 {
                assert(r[j] == s[j]);
                assert(lex_lt(s[0].0, s[j].0));
            } else {
                assert(r[i] == s[i]);
                assert(r[j] == s[j]);
            }
        }
        assert forall|p: (Seq<u8>, FrameV)| r.contains(p) implies (s.contains(p) || p == (
        k,
        v,
        )) by {
            let i = choose|i: int| 0 <= i < r.len() && r[i] == p;
            if i > 0 {
                assert(s[i] == p);
            }
        }
    } else if lex_lt(k, s[0].0) {
        assert(r == seq![(k, v)] + s);
        assert forall|i: int, j: int|
            0 <= i < j < r.len() implies lex_lt((#[trigger] r[i]).0, (#[trigger] r[j]).0) by {
            if i == 0 {
                assert(r[j] == s[j - 1]);
                if j - 1 > 0 {
                    assert(lex_lt(s[0].0, s[j - 1].0));
                    lemma_lex_transitive(k, s[0].0, s[j - 1].0);
                }
            } else {
                assert(r[i] == s[i - 1]);
                assert(r[j] == s[j - 1]);
            }
        }
        assert forall|p: (Seq<u8>, FrameV)| r.contains(p) implies (s.contains(p) || p == (
        k,
        v,
        )) by {
            let i = choose|i: int| 0 <= i < r.len() && r[i] == p;
            if i > 0 {
                assert(s[i - 1] == p);
            }
        }
    } else {
        lemma_lex_trichotomy(k, s[0].0);
        assert(lex_lt(s[0].0, k));
        let t = s.drop_first();
        assert(key_sorted(t)) by {
            assert forall|i: int, j: int|
                0 <= i < j < t.len() implies lex_lt((#[trigger] t[i]).0, (#[trigger] t[j]).0) by {
                assert(t[i] == s[i + 1]);
                assert(t[j] == s[j + 1]);
            }
        }
        lemma_map_insert_general(t, k, v);
        let rt = map_insert(t, k, v);
        assert(r == seq![s[0]] + rt);
        assert forall|i: int, j: int|
            0 <= i < j < r.len() implies lex_lt((#[trigger] r[i]).0, (#[trigger] r[j]).0) by {
            if i == 0 {
                assert(r[j] == rt[j - 1]);
                assert(rt.contains(rt[j - 1]));
                if rt[j - 1] == ((k, v)) {
                    assert(lex_lt(s[0].0, k));
                } else {
                    assert(t.contains(rt[j - 1]));
                    let x = choose|x: int| 0 <= x < t.len() && t[x] == rt[j - 1];
                    assert(t[x] == s[x + 1]);
                    assert(lex_lt(s[0].0, s[x + 1].0));
                }
            } else {
                assert(r[i] == rt[i - 1]);
                assert(r[j] == rt[j - 1]);
            }
        }
        assert forall|p: (Seq<u8>, FrameV)| r.contains(p) implies (s.contains(p) || p == (
        k,
        v,
        )) by {
            let i = choose|i: int| 0 <= i < r.len() && r[i] == p;
            if i == 0 {
                assert(s[0] == p);
            } else {
                assert(rt[i - 1] == p);
                assert(rt.contains(p));
                if t.contains(p) {
                    let x = choose|x: int| 0 <= x < t.len() && t[x] == p;
                    assert(s[x + 1] == p);
                }
            }
        }
    }
}

/// Whatever the wire order or key duplication, a canonicalized entry run
/// is key-sorted, no longer than its input, and draws every entry from it.
pub proof fn lemma_map_canon_general(pairs: Seq<(Seq<u8>, FrameV)>)
    ensures
        key_sorted(map_canon(pairs)),
        map_canon(pairs).len() <= pairs.len(),
        forall|p: (Seq<u8>, FrameV)| map_canon(pairs).contains(p) ==> pairs.contains(p),
    decreases pairs.len(),
{
    if pairs.len() > 0 {
        let front = pairs.drop_last();
        lemma_map_canon_general(front);
        lemma_map_insert_general(map_canon(front), pairs.last().0, pairs.last().1);
        assert forall|p: (Seq<u8>, FrameV)| map_canon(pairs).contains(p) implies pairs.contains(
            p,
        ) by {
            if map_canon(front).contains(p) {
                assert(front.contains(p));
                let i = choose|i: int| 0 <= i < front.len() && front[i] == p;
                assert(pairs[i] == p);
            } else {
                assert(p == (pairs.last().0, pairs.last().1));
                assert(pairs[pairs.len() - 1] == p);
            }
        }
    }
}

/// Every frame the decoder yields is well formed: line text is valid UTF-8
/// without CRLF, double text matches the float grammar, counts fit the
/// wire's signed count, and maps and sets come out canonical.
pub proof fn lemma_decode_wf(b: Seq<u8>)
    ensures
        decode_of(b) matches DecodeResult::Frame(fv, n) ==> wf(fv),
    decreases b.len(), 0int, 0int,
{
    if b.len() == 0 {
        return ;
    }
    crate::wire::lemma_first_crlf_bounds(b, 0);
    if b[0] == MARK_SIMPLE || b[0] == MARK_ERROR {
        match first_crlf_from(b, 0) {
            Some(p) => {
                let content = b.subrange(1, p);
                assert forall|i: int|
                    0 <= i < content.len() - 1 implies !(#[trigger] content[i] == 13 && content[i
                    + 1] == 10) by {
                    assert(content[i] == b[1 + i]);
                    assert(content[i + 1] == b[1 + i + 1]);
                    assert(!(b[1 + i] == 13 && b[1 + i + 1] == 10));
                }
            },
            None => {},
        }
    } else if b[0] == MARK_ARRAY || b[0] == MARK_SET {
        match header_of(b) {
            Ok((end, n)) => {
                if n >= 0 {
                    lemma_decode_children_wf(b, end + 2, n as nat);
                    crate::wire::lemma_decode_children_err_shape(b, end + 2, n as nat);
                    match decode_children(b, end + 2, n as nat) {
                        Ok((els, _)) => {
                            if b[0] == MARK_SET {
                                lemma_set_canon_props(els);
                                assert(wf(FrameV::SetFrame(set_canon(els)))) by {
                                    let c = set_canon(els);
                                    assert(c.len() <= els.len());
                                    assert forall|i: int|
                                        0 <= i < c.len() - 1 implies lex_lt(
                                        encode_spec(#[trigger] c[i]),
                                        encode_spec(c[i + 1]),
                                    ) by {
                                        assert(lex_lt(
                                            encode_spec(c[i]),
                                            encode_spec(c[i + 1]),
                                        ));
                                    }
                                }
                            }
                        },
                        Err(_) => {},
                    }
                }
            },
            Err(_) => {},
        }
    } else if b[0] == MARK_MAP {
        match header_of(b) {
            Ok((end, n)) => {
                if n >= 0 {
                    lemma_decode_entries_wf(b, end + 2, n as nat);
                    crate::wire::lemma_decode_entries_err_shape(b, end + 2, n as nat);
                    match decode_entries(b, end + 2, n as nat) {
                        Ok((entries, _)) => {
                            lemma_map_canon_general(entries);
                            let c = map_canon(entries);
                            assert(wf(FrameV::MapFrame(c))) by {
                                assert(c.len() <= entries.len());
                                assert forall|i: int|
                                    0 <= i < c.len() implies valid_utf8((#[trigger] c[i]).0)
                                    && no_crlf(c[i].0) && wf(c[i].1) by {
                                    assert(c.contains(c[i]));
                                    assert(entries.contains(c[i]));
                                    let x = choose|x: int|
                                        0 <= x < entries.len() && entries[x] == c[i];
                                }
                                assert forall|i: int|
                                    0 <= i < c.len() - 1 implies lex_lt(
                                    (#[trigger] c[i]).0,
                                    c[i + 1].0,
                                ) by {
                                    assert(lex_lt(c[i].0, c[i + 1].0));
                                }
                            }
                        },
                        Err(_) => {},
                    }
                }
            },
            Err(_) => {},
        }
    }
}

/// Every child run the decoder yields is well formed and exactly `k` long.
pub proof fn lemma_decode_children_wf(b: Seq<u8>, off: int, k: nat)
    ensures
        decode_children(b, off, k) matches Ok((els, fin)) ==> all_wf(els) && els.len() == k,
    decreases b.len() - off, 1int, k,
{
    if k > 0 && 0 < off && off <= b.len() {
        lemma_decode_wf(b.skip(off));
        match decode_of(b.skip(off)) {
            DecodeResult::Frame(f, l) => {
                if 0 < l && off + l <= b.len() {
                    lemma_decode_children_wf(b, off + l, (k - 1) as nat);
                    match decode_children(b, off + l, (k - 1) as nat) {
                        Ok((rest, _)) => {
                            assert forall|i: int|
                                0 <= i < (seq![f] + rest).len() implies wf(
                                #[trigger] (seq![f] + rest)[i],
                            ) by {
                                if i > 0 {
                                    assert((seq![f] + rest)[i] == rest[i - 1]);
                                }
                            }
                        },
                        Err(_) => {},
                    }
                }
            },
            _ => {},
        }
    }
}

/// Every entry run the decoder yields has valid keys, well-formed values,
/// and exactly `k` entries.
pub proof fn lemma_decode_entries_wf(b: Seq<u8>, off: int, k: nat)
    ensures
        decode_entries(b, off, k) matches Ok((entries, fin)) ==> entries.len() == k && (forall|
            i: int,
        |
            0 <= i < entries.len() ==> valid_utf8((#[trigger] entries[i]).0) && no_crlf(
                entries[i].0,
            ) && wf(entries[i].1)),
    decreases b.len() - off, 1int, k,
{
    if k > 0 && 0 < off && off <= b.len() {
        if !(off < b.len() && b[off] != MARK_SIMPLE) {
            lemma_decode_wf(b.skip(off));
            match decode_of(b.skip(off)) {
                DecodeResult::Frame(kf, l) => {
                    if 0 < l && off + l <= b.len() {
                        match kf {
                            FrameV::SimpleString(key) => {
                                lemma_decode_wf(b.skip(off + l));
                                match decode_of(b.skip(off + l)) {
                                    DecodeResult::Frame(vf, l2) => {
                                        if 0 < l2 && off + l + l2 <= b.len() {
                                            lemma_decode_entries_wf(
                                                b,
                                                off + l + l2,
                                                (k - 1) as nat,
                                            );
                                            match decode_entries(
                                                b,
                                                off + l + l2,
                                                (k - 1) as nat,
                                            ) {
                                                Ok((rest, _)) => {
                                                    let whole = seq![(key, vf)] + rest;
                                                    assert forall|i: int|
                                                        0 <= i < whole.len() implies valid_utf8(
                                                        (#[trigger] whole[i]).0,
                                                    ) && no_crlf(whole[i].0) && wf(
                                                        whole[i].1,
                                                    ) by {
                                                        if i > 0 {
                                                            assert(whole[i] == rest[i - 1]);
                                                        } else {
                                                            assert(whole[0] == (key, vf));
                                                            assert(wf(FrameV::SimpleString(key)));
                                                        }
                                                    }
                                                },
                                                Err(_) => {},
                                            }
                                        }
                                    },
                                    _ => {},
                                }
                            },
                            _ => {},
                        }
                    }
                },
                _ => {},
            }
        }
    }
}

} // verus!
