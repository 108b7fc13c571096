//! The double frame's text: a recognizer for the grammar of Rust's float
//! parser. The codec validates and carries a double's wire text; it never
//! computes the numeric value, which is the caller's floating-point work.
use vstd::prelude::*;

verus! {

use crate::digits::all_digits;
use crate::wire::ascii_lower;
use crate::wire::eq_ignore_case;
use crate::wire::first_dot_from;
use crate::wire::first_exp_from;
use crate::wire::is_float_text;
use crate::wire::is_mantissa;
use crate::wire::is_signed_count;

/// Are all bytes decimal digits?
fn digits_only(b: &[u8]) -> (r: bool)
    ensures
        r == all_digits(b@),
{
    let mut i: usize = 0;
    while i < b.len()
        invariant
            i <= b@.len(),
            forall|j: int| 0 <= j < i ==> crate::digits::is_digit(#[trigger] b@[j]),
        decreases b@.len() - i,
    {
        let c = b[i];
        if c < 0x30 || c > 0x39 {
            return false;
        }
        i = i + 1;
    }
    true
}

/// Finds the first `e` or `E`.
fn find_exp(b: &[u8]) -> (r: Option<usize>)
    ensures
        match first_exp_from(b@, 0) {
            Some(p) => r == Some(p as usize),
            None => r is None,
        },
{
    let mut i: usize = 0;
    loop
        invariant
            i <= b@.len(),
            first_exp_from(b@, 0) == first_exp_from(b@, i as int),
        decreases b@.len() - i,
    {
        if i >= b.len() {
            return None;
        }
        if b[i] == 0x65 || b[i] == 0x45 {
            return Some(i);
        }
        i = i + 1;
    }
}

/// Finds the first `.`.
fn find_dot(b: &[u8]) -> (r: Option<usize>)
    ensures
        match first_dot_from(b@, 0) {
            Some(p) => r == Some(p as usize),
            None => r is None,
        },
{
    let mut i: usize = 0;
    loop
        invariant
            i <= b@.len(),
            first_dot_from(b@, 0) == first_dot_from(b@, i as int),
        decreases b@.len() - i,
    {
        if i >= b.len() {
            return None;
        }
        if b[i] == 0x2e {
            return Some(i);
        }
        i = i + 1;
    }
}

/// The first `.` lies inside the bytes.
proof fn lemma_first_dot_bounds(b: Seq<u8>, i: int)
    requires
        0 <= i,
    ensures
        first_dot_from(b, i) matches Some(p) ==> i <= p < b.len(),
    decreases b.len() - i,
{
    if i < b.len() && b[i] != 0x2e {
        lemma_first_dot_bounds(b, i + 1);
    }
}

/// The first `e` lies inside the bytes.
proof fn lemma_first_exp_bounds(b: Seq<u8>, i: int)
    requires
        0 <= i,
    ensures
        first_exp_from(b, i) matches Some(p) ==> i <= p < b.len(),
    decreases b.len() - i,
{
    if i < b.len() && !(b[i] == 0x65 || b[i] == 0x45) {
        lemma_first_exp_bounds(b, i + 1);
    }
}

/// Digits with at most one interior dot and at least one digit?
fn mantissa_ok(b: &[u8]) -> (r: bool)
    ensures
        r == is_mantissa(b@),
{
    proof {
        lemma_first_dot_bounds(b@, 0);
    }
    match find_dot(b) {
        None => b.len() > 0 && digits_only(b),
        Some(d) => {
            if b.len() <= 1 {
                return false;
            }
            let before = crate::length::slice_range(b, 0, d);
            let after = crate::length::slice_range(b, d + 1, b.len());
            digits_only(before) && digits_only(after)
        },
    }
}

/// An optional sign, then one or more digits?
fn signed_count_ok(b: &[u8]) -> (r: bool)
    ensures
        r == is_signed_count(b@),
{
    if b.len() == 0 {
        return false;
    }
    let start: usize = if b[0] == 0x2b || b[0] == 0x2d {
        1
    } else {
        0
    };
    proof {
        if b@[0] == 0x2b || b@[0] == 0x2d {
            assert(b@.drop_first() =~= b@.subrange(1, b@.len() as int));
        } else {
            assert(b@ =~= b@.subrange(0, b@.len() as int));
        }
    }
    let digs = crate::length::slice_range(b, start, b.len());
    digs.len() > 0 && digits_only(digs)
}

/// Case-insensitive comparison of `b` against a lowercase word.
fn matches_word(b: &[u8], w: &[u8]) -> (r: bool)
    ensures
        r == eq_ignore_case(b@, w@),
{
    if b.len() != w.len() {
        return false;
    }
    let mut i: usize = 0;
    while i < b.len()
        invariant
            i <= b@.len(),
            b@.len() == w@.len(),
            forall|j: int| 0 <= j < i ==> ascii_lower(#[trigger] b@[j]) == w@[j],
        decreases b@.len() - i,
    {
        let c = b[i];
        let lowered: u8 = if c >= 0x41 && c <= 0x5a {
            c + 0x20
        } else {
            c
        };
        if lowered != w[i] {
            proof {
                assert(ascii_lower(b@[i as int]) != w@[i as int]);
            }
            return false;
        }
        i = i + 1;
    }
    true
}

/// Does this text match the grammar of Rust's float parser: an optional
/// sign, then `inf`, `infinity` or `nan` (case-insensitive), or a mantissa
/// with an optional exponent?
pub fn float_text_ok(b: &[u8]) -> (r: bool)
    ensures
        r == is_float_text(b@),
{
    let start: usize = if b.len() > 0 && (b[0] == 0x2b || b[0] == 0x2d) {
        1
    } else {
        0
    };
    proof {
        if b@.len() > 0 && (b@[0] == 0x2b || b@[0] == 0x2d) {
            assert(b@.drop_first() =~= b@.subrange(1, b@.len() as int));
        } else {
            assert(b@ =~= b@.subrange(0, b@.len() as int));
        }
    }
    let body = crate::length::slice_range(b, start, b.len());
    let inf: [u8; 3] = [0x69, 0x6e, 0x66];
    let infinity: [u8; 8] = [0x69, 0x6e, 0x66, 0x69, 0x6e, 0x69, 0x74, 0x79];
    let nan: [u8; 3] = [0x6e, 0x61, 0x6e];
    proof {
        assert(inf@ =~= seq![0x69u8, 0x6eu8, 0x66u8]);
        assert(infinity@ =~= seq![0x69u8, 0x6eu8, 0x66u8, 0x69u8, 0x6eu8, 0x69u8, 0x74u8, 0x79u8]);
        assert(nan@ =~= seq![0x6eu8, 0x61u8, 0x6eu8]);
    }
    if matches_word(body, inf.as_slice()) || matches_word(body, infinity.as_slice())
        || matches_word(body, nan.as_slice()) {
        return true;
    }
    proof {
        lemma_first_exp_bounds(body@, 0);
    }
    match find_exp(body) {
        None => mantissa_ok(body),
        Some(p) => {
            let mantissa = crate::length::slice_range(body, 0, p);
            let exponent = crate::length::slice_range(body, p + 1, body.len());
            mantissa_ok(mantissa) && signed_count_ok(exponent)
        },
    }
}

} // verus!
