//! The length oracle: given an immutable byte slice, how many bytes does the
//! first complete frame take? It never consumes its input and never builds a
//! value; aggregates are measured by recursive calls at the running offset.
use vstd::prelude::*;

verus! {

use vstd::string::StringExecFns;

use crate::digits::parse_i64;
use crate::error::RespError;
use crate::error::len_err_matches;
use crate::wire::LenResult;
use crate::wire::MARK_ARRAY;
use crate::wire::MARK_BOOL;
use crate::wire::MARK_BULK;
use crate::wire::MARK_DOUBLE;
use crate::wire::MARK_ERROR;
use crate::wire::MARK_INT;
use crate::wire::MARK_MAP;
use crate::wire::MARK_NULL;
use crate::wire::MARK_SET;
use crate::wire::MARK_SIMPLE;
use crate::wire::children_len;
use crate::wire::first_crlf_from;
use crate::wire::header_of;
use crate::wire::lemma_first_crlf_bounds;
use crate::wire::lemma_len_of_bounds;
use crate::wire::len_of;

/// Dropping a prefix twice is dropping it once, further along.
pub proof fn lemma_skip_skip(b: Seq<u8>, x: int, y: int)
    requires
        0 <= x,
        0 <= y,
        x + y <= b.len(),
    ensures
        b.skip(x).skip(y) =~= b.skip(x + y),
{
}

/// Searching a suffix for CRLF is searching the whole, shifted.
pub proof fn lemma_first_crlf_shift(b: Seq<u8>, pos: int, j: int)
    requires
        0 <= pos <= b.len(),
        0 <= j,
    ensures
        first_crlf_from(b.skip(pos), j) == match first_crlf_from(b, pos + j) {
            Some(p) => Some(p - pos),
            None => None::<int>,
        },
    decreases b.len() - pos - j,
{
    if pos + j + 1 < b.len() {
        assert(b.skip(pos)[j] == b[pos + j]);
        assert(b.skip(pos)[j + 1] == b[pos + j + 1]);
        if !(b[pos + j] == 13 && b[pos + j + 1] == 10) {
            lemma_first_crlf_shift(b, pos, j + 1);
        }
    }
}

/// Measuring `k` children of a suffix is measuring them at the absolute
/// offset, with the answer shifted.
pub proof fn lemma_children_len_shift(b: Seq<u8>, pos: int, off: int, k: nat)
    requires
        0 <= pos <= b.len(),
        0 < off,
    ensures
        children_len(b.skip(pos), off, k) == match children_len(b, pos + off, k) {
            LenResult::Complete(n) => LenResult::Complete(n - pos),
            other => other,
        },
    decreases b.len() - pos - off, 1int, k,
{
    let s = b.skip(pos);
    if k == 0 {
    } else if !(0 < off && off <= s.len()) {
        assert(off > s.len());
        assert(pos + off > b.len());
    } else {
        lemma_skip_skip(b, pos, off);
        assert(s.skip(off) =~= b.skip(pos + off));
        match len_of(s.skip(off)) {
            LenResult::Complete(l) => {
                if 0 < l && off + l <= s.len() {
                    lemma_children_len_shift(b, pos, off + l, (k - 1) as nat);
                }
            },
            _ => {},
        }
    }
}

/// Finds the first CRLF pair at or after `start`.
pub fn find_crlf_at(buf: &[u8], start: usize) -> (r: Option<usize>)
    requires
        start <= buf@.len(),
    ensures
        match first_crlf_from(buf@, start as int) {
            Some(p) => r == Some(p as usize),
            None => r is None,
        },
{
    let mut i: usize = start;
    loop
        invariant
            start <= i <= buf@.len(),
            first_crlf_from(buf@, start as int) == first_crlf_from(buf@, i as int),
        decreases buf@.len() - i,
    {
        if buf.len() - i < 2 {
            return None;
        }
        if buf[i] == 13 && buf[i + 1] == 10 {
            return Some(i);
        }
        i = i + 1;
    }
}

/// Finds the `nth` CRLF pair (a pair at each index where a carriage return
/// is followed by a line feed), as the original line scanner counts them.
pub open spec fn spec_find_crlf(b: Seq<u8>, i: int, nth: nat) -> Option<int>
    decreases b.len() - i,
{
    if i + 1 >= b.len() {
        None
    } else if b[i] == 13 && b[i + 1] == 10 {
        if nth <= 1 {
            Some(i)
        } else {
            spec_find_crlf(b, i + 1, (nth - 1) as nat)
        }
    } else {
        spec_find_crlf(b, i + 1, nth)
    }
}

/// The first CRLF by the counting scanner is the first CRLF.
pub proof fn lemma_spec_find_crlf_first(b: Seq<u8>, i: int)
    ensures
        spec_find_crlf(b, i, 1) == first_crlf_from(b, i),
    decreases b.len() - i,
{
    if i + 1 < b.len() && !(b[i] == 13 && b[i + 1] == 10) {
        lemma_spec_find_crlf_first(b, i + 1);
    }
}

/// Scans for the position of the `nth` CRLF pair.
pub fn find_crlf(buf: &[u8], nth_crlf: usize) -> (r: Option<usize>)
    requires
        buf@.len() >= 1,
        nth_crlf >= 1,
    ensures
        match spec_find_crlf(buf@, 0, nth_crlf as nat) {
            Some(p) => r == Some(p as usize),
            None => r is None,
        },
        nth_crlf == 1 ==> match first_crlf_from(buf@, 0) {
            Some(p) => r == Some(p as usize),
            None => r is None,
        },
{
    proof {
        lemma_spec_find_crlf_first(buf@, 0);
    }
    let mut remaining: usize = nth_crlf;
    let mut i: usize = 0;
    loop
        invariant
            i <= buf@.len(),
            remaining >= 1,
            spec_find_crlf(buf@, 0, nth_crlf as nat) == spec_find_crlf(
                buf@,
                i as int,
                remaining as nat,
            ),
            nth_crlf == 1 ==> spec_find_crlf(buf@, 0, nth_crlf as nat) == first_crlf_from(
                buf@,
                0,
            ),
        decreases buf@.len() - i,
    {
        if buf.len() - i < 2 {
            return None;
        }
        if buf[i] == 13 && buf[i + 1] == 10 {
            if remaining == 1 {
                return Some(i);
            }
            remaining = remaining - 1;
        }
        i = i + 1;
    }
}

/// Reads an aggregate header at `pos`: the count line's CRLF position
/// (absolute) and the count.
pub(crate) fn header_at(buf: &[u8], pos: usize) -> (r: Result<(usize, i64), RespError>)
    requires
        pos <= buf@.len(),
    ensures
        match r {
            Ok((end, n)) => header_of(buf@.skip(pos as int)) == Ok::<(int, int), LenResult>(
                ((end - pos) as int, n as int),
            ) && pos < end && end + 2 <= buf@.len(),
            Err(e) => match header_of(buf@.skip(pos as int)) {
                Ok(_) => false,
                Err(LenResult::Partial) => e == RespError::NotComplete,
                Err(_) => e is InvalidFrameData,
            },
        },
{
    proof {
        lemma_first_crlf_shift(buf@, pos as int, 0);
    }
    if buf.len() - pos < 3 {
        return Err(RespError::NotComplete);
    }
    match find_crlf_at(buf, pos) {
        None => Err(RespError::NotComplete),
        Some(end) => {
            proof {
                lemma_first_crlf_bounds(buf@, pos as int);
            }
            if end == pos {
                // A CRLF in the marker position: no count line at all.
                return Err(RespError::InvalidFrameData(String::from_str("empty count prefix")));
            }
            let line = slice_range(buf, pos + 1, end);
            proof {
                assert(buf@.skip(pos as int).subrange(1, (end - pos) as int) =~= buf@.subrange(
                    pos + 1 as int,
                    end as int,
                ));
            }
            match parse_i64(line) {
                Some(n) => Ok((end, n)),
                None => Err(
                    RespError::InvalidFrameData(String::from_str("invalid count prefix")),
                ),
            }
        },
    }
}

/// Copies out `buf[from..to]` as a borrowed subslice.
pub(crate) fn slice_range<'a>(buf: &'a [u8], from: usize, to: usize) -> (r: &'a [u8])
    requires
        from <= to <= buf@.len(),
    ensures
        r@ == buf@.subrange(from as int, to as int),
{
    vstd::slice::slice_subrange(buf, from, to)
}

/// The length oracle at an offset: how many bytes the first complete frame
/// starting at `pos` takes, as an absolute end offset.
pub fn len_from(buf: &[u8], pos: usize) -> (r: Result<usize, RespError>)
    requires
        pos <= buf@.len(),
    ensures
        match r {
            Ok(n) => len_of(buf@.skip(pos as int)) == LenResult::Complete(n - pos) && pos < n <= buf@.len(),
            Err(e) => len_err_matches(e, len_of(buf@.skip(pos as int))),
        },
    decreases buf@.len() - pos, 0int,
{
    let ghost s = buf@.skip(pos as int);
    proof {
        lemma_len_of_bounds(s);
        lemma_first_crlf_shift(buf@, pos as int, 0);
    }
    if pos == buf.len() {
        return Err(RespError::NotComplete);
    }
    let marker = buf[pos];
    if marker == MARK_SIMPLE || marker == MARK_ERROR || marker == MARK_INT || marker == MARK_NULL
        || marker == MARK_BOOL || marker == MARK_DOUBLE {
        match find_crlf_at(buf, pos) {
            None => Err(RespError::NotComplete),
            Some(p) => {
                proof {
                    lemma_first_crlf_bounds(buf@, pos as int);
                }
                Ok(p + 2)
            },
        }
    } else if marker == MARK_BULK {
        match header_at(buf, pos) {
            Err(e) => Err(e),
            Ok((end, n)) => {
                if n < -1 {
                    Err(RespError::InvalidFrameLength(n))
                } else if n == -1 {
                    Ok(end + 2)
                } else {
                    // end + 2 + n + 2 <= buf.len(), computed without overflow.
                    let avail = buf.len() - (end + 2);
                    if avail >= 2 && (n as u64) <= (avail - 2) as u64 {
                        Ok(end + 2 + (n as usize) + 2)
                    } else {
                        Err(RespError::NotComplete)
                    }
                }
            },
        }
    } else if marker == MARK_ARRAY {
        match header_at(buf, pos) {
            Err(e) => Err(e),
            Ok((end, n)) => {
                if n < -1 {
                    Err(RespError::InvalidFrameLength(n))
                } else if n == -1 {
                    Ok(end + 2)
                } else {
                    let r = children_from(buf, end + 2, n as u64);
                    proof {
                        lemma_children_len_shift(buf@, pos as int, (end + 2 - pos) as int, n as nat);
                    }
                    r
                }
            },
        }
    } else if marker == MARK_SET {
        match header_at(buf, pos) {
            Err(e) => Err(e),
            Ok((end, n)) => {
                if n < 0 {
                    Err(RespError::InvalidFrameLength(n))
                } else {
                    let r = children_from(buf, end + 2, n as u64);
                    proof {
                        lemma_children_len_shift(buf@, pos as int, (end + 2 - pos) as int, n as nat);
                    }
                    r
                }
            },
        }
    } else if marker == MARK_MAP {
        match header_at(buf, pos) {
            Err(e) => Err(e),
            Ok((end, n)) => {
                if n < 0 {
                    Err(RespError::InvalidFrameLength(n))
                } else {
                    let r = children_from(buf, end + 2, 2 * (n as u64));
                    proof {
                        lemma_children_len_shift(
                            buf@,
                            pos as int,
                            (end + 2 - pos) as int,
                            (2 * n) as nat,
                        );
                    }
                    r
                }
            },
        }
    } else {
        Err(RespError::InvalidFrameType(String::from_str("unknown frame type")))
    }
}

/// Measures `k` children starting at the absolute offset `off`.
fn children_from(buf: &[u8], off: usize, k: u64) -> (r: Result<usize, RespError>)
    requires
        0 < off <= buf@.len(),
    ensures
        match r {
            Ok(n) => children_len(buf@, off as int, k as nat) == LenResult::Complete(n as int)
                && off <= n <= buf@.len(),
            Err(e) => len_err_matches(e, children_len(buf@, off as int, k as nat)),
        },
    decreases buf@.len() - off, 1int,
{
    let mut cur: usize = off;
    let mut remaining: u64 = k;
    loop
        invariant
            off <= cur <= buf@.len(),
            0 < cur,
            remaining <= k,
            children_len(buf@, off as int, k as nat) == children_len(
                buf@,
                cur as int,
                remaining as nat,
            ),
        decreases remaining,
    {
        if remaining == 0 {
            return Ok(cur);
        }
        match len_from(buf, cur) {
            Err(e) => {
                return Err(e);
            },
            Ok(n) => {
                proof {
                    crate::wire::lemma_len_of_bounds(buf@.skip(cur as int));
                }
                cur = n;
                remaining = remaining - 1;
            },
        }
    }
}

/// Reads an aggregate header from the front of the buffer: the position of
/// the count line's CRLF and the count. A prefix that is no aggregate
/// marker is rejected.
pub fn parse_aggregate_length(buf: &[u8], prefix: &[u8]) -> (r: Result<(usize, i64), RespError>)
    ensures
        !(prefix@ =~= seq![MARK_BULK] || prefix@ =~= seq![MARK_ARRAY] || prefix@ =~= seq![MARK_MAP]
            || prefix@ =~= seq![MARK_SET]) ==> (r matches Err(e) && e is InvalidFrameType),
        (prefix@ =~= seq![MARK_BULK] || prefix@ =~= seq![MARK_ARRAY] || prefix@ =~= seq![MARK_MAP]
            || prefix@ =~= seq![MARK_SET]) ==> match r {
            Ok((end, n)) => header_of(buf@) == Ok::<(int, int), LenResult>((end as int, n as int)),
            Err(e) => match header_of(buf@) {
                Ok(_) => false,
                Err(LenResult::Partial) => e == RespError::NotComplete,
                Err(_) => e is InvalidFrameData,
            },
        },
{
    let aggregate = prefix.len() == 1 && (prefix[0] == MARK_BULK || prefix[0] == MARK_ARRAY
        || prefix[0] == MARK_MAP || prefix[0] == MARK_SET);
    if !aggregate {
        proof {
            assert(!(prefix@ =~= seq![MARK_BULK] || prefix@ =~= seq![MARK_ARRAY] || prefix@
                =~= seq![MARK_MAP] || prefix@ =~= seq![MARK_SET]));
        }
        return Err(
            RespError::InvalidFrameType(
                String::from_str("frame type is not a aggregate type"),
            ),
        );
    }
    proof {
        lemma_first_crlf_shift(buf@, 0, 0);
        assert(buf@.skip(0) =~= buf@);
    }
    header_at(buf, 0)
}

} // verus!
