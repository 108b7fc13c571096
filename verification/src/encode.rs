//! Encoding: a total, pure function from a frame to its exact byte
//! serialization, one recursive pass over the frame tree.
use vstd::prelude::*;

verus! {

use crate::frame::FrameV;
use crate::frame::RespArray;
use crate::frame::RespFrame;
use crate::frame::RespMap;
use crate::frame::RespNull;
use crate::frame::RespSet;
use crate::frame::SimpleError;
use crate::frame::SimpleString;
use crate::frame::BulkString;
use crate::frame::frames_view;
use crate::frame::lemma_frames_view_index;
use crate::frame::lemma_pairs_view_index;
use crate::digits::dec_digits;
use crate::digits::dec_int;
use crate::digits::fmt_i64;
use crate::digits::fmt_u64;
use crate::wire::MARK_ARRAY;
use crate::wire::MARK_BOOL;
use crate::wire::MARK_BULK;
use crate::wire::MARK_DOUBLE;
use crate::wire::MARK_ERROR;
use crate::wire::MARK_INT;
use crate::wire::MARK_MAP;
use crate::wire::MARK_NULL;
use crate::wire::MARK_SET;
use crate::wire::MARK_SIMPLE;
use crate::wire::crlf;
use crate::wire::encode_pairs;
use crate::wire::encode_seq;
use crate::wire::encode_spec;

/// A frame appended to a run extends the run's encoding at the end.
pub proof fn lemma_encode_seq_push(s: Seq<FrameV>, f: FrameV)
    ensures
        encode_seq(s.push(f)) == encode_seq(s) + encode_spec(f),
    decreases s.len(),
{
    if s.len() == 0 {
        assert(s.push(f)[0] == f);
        assert(s.push(f).drop_first() =~= Seq::<FrameV>::empty());
        assert(encode_seq(Seq::<FrameV>::empty()) == Seq::<u8>::empty());
        assert(encode_seq(s.push(f)) =~= encode_seq(s) + encode_spec(f));
    } else {
        assert(s.push(f)[0] == s[0]);
        assert(s.push(f).drop_first() =~= s.drop_first().push(f));
        lemma_encode_seq_push(s.drop_first(), f);
        assert(encode_seq(s.push(f)) =~= encode_seq(s) + encode_spec(f));
    }
}

/// An entry appended to a run extends the run's encoding at the end.
pub proof fn lemma_encode_pairs_push(s: Seq<(Seq<u8>, FrameV)>, p: (Seq<u8>, FrameV))
    ensures
        encode_pairs(s.push(p)) == encode_pairs(s) + (seq![MARK_SIMPLE] + p.0 + crlf())
            + encode_spec(p.1),
    decreases s.len(),
{
    if s.len() == 0 {
        assert(s.push(p)[0] == p);
        assert(s.push(p).drop_first() =~= Seq::<(Seq<u8>, FrameV)>::empty());
        assert(encode_pairs(Seq::<(Seq<u8>, FrameV)>::empty()) == Seq::<u8>::empty());
        assert(encode_pairs(s.push(p)) =~= encode_pairs(s) + (seq![MARK_SIMPLE] + p.0 + crlf())
            + encode_spec(p.1));
    } else {
        assert(s.push(p)[0] == s[0]);
        assert(s.push(p).drop_first() =~= s.drop_first().push(p));
        lemma_encode_pairs_push(s.drop_first(), p);
        assert(encode_pairs(s.push(p)) =~= encode_pairs(s) + (seq![MARK_SIMPLE] + p.0 + crlf())
            + encode_spec(p.1));
    }
}

/// Appends all of `b` to `out`.
fn push_bytes(out: &mut Vec<u8>, b: &[u8])
    ensures
        final (out)@ == old(out)@ + b@,
{
    let mut i: usize = 0;
    while i < b.len()
        invariant
            i <= b@.len(),
            out@ == old(out)@ + b@.subrange(0, i as int),
        decreases b@.len() - i,
    {
        out.push(b[i]);
        proof {
            assert(out@ =~= old(out)@ + b@.subrange(0, i + 1 as int));
        }
        i = i + 1;
    }
    proof {
        assert(out@ =~= old(out)@ + b@);
    }
}

/// Appends the CRLF terminator to `out`.
fn push_crlf(out: &mut Vec<u8>)
    ensures
        final (out)@ == old(out)@ + crlf(),
{
    out.push(13);
    out.push(10);
    proof {
        assert(out@ =~= old(out)@ + crlf());
    }
}

/// Appends the decimal text of `n` to `out`.
fn push_count(out: &mut Vec<u8>, n: usize)
    ensures
        final (out)@ == old(out)@ + dec_int(n as int),
{
    let digits = fmt_u64(n as u64);
    push_bytes(out, digits.as_slice());
}

/// The five bytes of a null sentinel: marker, `-1`, CRLF.
fn push_null_sentinel(out: &mut Vec<u8>, marker: u8)
    ensures
        final (out)@ == old(out)@ + seq![marker] + dec_int(-1) + crlf(),
{
    out.push(marker);
    out.push(0x2d);
    out.push(0x31);
    out.push(13);
    out.push(10);
    proof {
        assert(dec_digits(1nat) =~= seq![0x31u8]);
        assert(out@ =~= old(out)@ + seq![marker] + dec_int(-1) + crlf());
    }
}

/// Serializes one frame: exactly the bytes that the wire grammar assigns
/// to its model.
pub fn encode_frame(f: &RespFrame) -> (r: Vec<u8>)
    ensures
        r@ == encode_spec(f@),
    decreases *f,
{
    let mut out: Vec<u8> = Vec::new();
    match f {
        RespFrame::SimpleString(s) => {
            out.push(MARK_SIMPLE);
            push_bytes(&mut out, s.0.as_slice());
            push_crlf(&mut out);
            proof {
                assert(out@ =~= encode_spec(f@));
            }
        },
        RespFrame::SimpleError(s) => {
            out.push(MARK_ERROR);
            push_bytes(&mut out, s.0.as_slice());
            push_crlf(&mut out);
            proof {
                assert(out@ =~= encode_spec(f@));
            }
        },
        RespFrame::Integer(i) => {
            out.push(MARK_INT);
            let digits = fmt_i64(*i);
            push_bytes(&mut out, digits.as_slice());
            push_crlf(&mut out);
            proof {
                assert(out@ =~= encode_spec(f@));
            }
        },
        RespFrame::BulkString(BulkString(None)) => {
            push_null_sentinel(&mut out, MARK_BULK);
            proof {
                assert(out@ =~= encode_spec(f@));
            }
        },
        RespFrame::BulkString(BulkString(Some(p))) => {
            out.push(MARK_BULK);
            push_count(&mut out, p.len());
            push_crlf(&mut out);
            push_bytes(&mut out, p.as_slice());
            push_crlf(&mut out);
            proof {
                assert(out@ =~= encode_spec(f@));
            }
        },
        RespFrame::Array(RespArray(None)) => {
            push_null_sentinel(&mut out, MARK_ARRAY);
            proof {
                assert(out@ =~= encode_spec(f@));
            }
        },
        RespFrame::Array(RespArray(Some(v))) => {
            out.push(MARK_ARRAY);
            push_count(&mut out, v.len());
            push_crlf(&mut out);
            push_children(&mut out, v);
            proof {
                lemma_frames_view_index(v@);
                assert(out@ =~= encode_spec(f@));
            }
        },
        RespFrame::Null(_) => {
            out.push(MARK_NULL);
            push_crlf(&mut out);
            proof {
                assert(out@ =~= encode_spec(f@));
            }
        },
        RespFrame::Boolean(v) => {
            out.push(MARK_BOOL);
            if *v {
                out.push(0x74);
            } else {
                out.push(0x66);
            }
            push_crlf(&mut out);
            proof {
                assert(out@ =~= encode_spec(f@));
            }
        },
        RespFrame::Double(t) => {
            out.push(MARK_DOUBLE);
            push_bytes(&mut out, t.as_slice());
            push_crlf(&mut out);
            proof {
                assert(out@ =~= encode_spec(f@));
            }
        },
        RespFrame::MapFrame(RespMap(entries)) => {
            out.push(MARK_MAP);
            proof {
                lemma_pairs_view_index(entries@);
            }
            push_count(&mut out, entries.len());
            push_crlf(&mut out);
            push_entries(&mut out, entries);
            proof {
                lemma_pairs_view_index(entries@);
                assert(out@ =~= encode_spec(f@));
            }
        },
        RespFrame::SetFrame(RespSet(v)) => {
            out.push(MARK_SET);
            push_count(&mut out, v.len());
            push_crlf(&mut out);
            push_children(&mut out, v);
            proof {
                lemma_frames_view_index(v@);
                assert(out@ =~= encode_spec(f@));
            }
        },
    }
    out
}

/// Appends the encodings of all frames in `v`, in order.
fn push_children(out: &mut Vec<u8>, v: &Vec<RespFrame>)
    ensures
        final (out)@ == old(out)@ + encode_seq(frames_view(v@)),
    decreases v@,
{
    proof {
        lemma_frames_view_index(v@);
    }
    let mut i: usize = 0;
    while i < v.len()
        invariant
            i <= v@.len(),
            frames_view(v@).len() == v@.len(),
            out@ == old(out)@ + encode_seq(frames_view(v@).take(i as int)),
        decreases v@.len() - i,
    {
        proof {
            lemma_frames_view_index(v@);
            assert(decreases_to!(v@ => v@[i as int]));
        }
        let enc = encode_frame(&v[i]);
        push_bytes(out, enc.as_slice());
        proof {
            let fv = frames_view(v@);
            assert(fv.take(i as int).push(fv[i as int]) =~= fv.take(i + 1 as int));
            lemma_encode_seq_push(fv.take(i as int), fv[i as int]);
            assert(out@ =~= old(out)@ + encode_seq(fv.take(i + 1 as int)));
        }
        i = i + 1;
    }
    proof {
        lemma_frames_view_index(v@);
        let fv = frames_view(v@);
        assert(fv.take(fv.len() as int) =~= fv);
    }
}

/// Appends the encodings of all map entries in `entries`, in order: each
/// key as a simple string frame, then its value frame.
fn push_entries(out: &mut Vec<u8>, entries: &Vec<(SimpleString, RespFrame)>)
    ensures
        final (out)@ == old(out)@ + encode_pairs(crate::frame::pairs_view(entries@)),
    decreases entries@,
{
    proof {
        lemma_pairs_view_index(entries@);
    }
    let mut i: usize = 0;
    while i < entries.len()
        invariant
            i <= entries@.len(),
            crate::frame::pairs_view(entries@).len() == entries@.len(),
            out@ == old(out)@ + encode_pairs(crate::frame::pairs_view(entries@).take(i as int)),
        decreases entries@.len() - i,
    {
        proof {
            lemma_pairs_view_index(entries@);
            assert(decreases_to!(entries@ => entries@[i as int]));
        }
        out.push(MARK_SIMPLE);
        push_bytes(out, entries[i].0.0.as_slice());
        push_crlf(out);
        let enc = encode_frame(&entries[i].1);
        push_bytes(out, enc.as_slice());
        proof {
            let pv = crate::frame::pairs_view(entries@);
            assert(pv.take(i as int).push(pv[i as int]) =~= pv.take(i + 1 as int));
            lemma_encode_pairs_push(pv.take(i as int), pv[i as int]);
            assert(out@ =~= old(out)@ + encode_pairs(pv.take(i + 1 as int)));
        }
        i = i + 1;
    }
    proof {
        lemma_pairs_view_index(entries@);
        let pv = crate::frame::pairs_view(entries@);
        assert(pv.take(pv.len() as int) =~= pv);
    }
}

/// What a value serializes to: its model's encoding under the wire grammar.
pub trait RespEncode: Sized {
    /// The bytes this value's frame takes on the wire.
    spec fn wire_bytes(&self) -> Seq<u8>;

    /// Serializes the value.
    fn encode(self) -> (r: Vec<u8>)
        ensures
            r@ == self.wire_bytes(),
    ;
}

impl RespEncode for RespFrame {
    open spec fn wire_bytes(&self) -> Seq<u8> {
        encode_spec(self@)
    }

    fn encode(self) -> (r: Vec<u8>) {
        encode_frame(&self)
    }
}

impl RespEncode for SimpleString {
    open spec fn wire_bytes(&self) -> Seq<u8> {
        encode_spec(FrameV::SimpleString(self@))
    }

    fn encode(self) -> (r: Vec<u8>) {
        encode_frame(&RespFrame::SimpleString(self))
    }
}

impl RespEncode for SimpleError {
    open spec fn wire_bytes(&self) -> Seq<u8> {
        encode_spec(FrameV::SimpleError(self@))
    }

    fn encode(self) -> (r: Vec<u8>) {
        encode_frame(&RespFrame::SimpleError(self))
    }
}

impl RespEncode for i64 {
    open spec fn wire_bytes(&self) -> Seq<u8> {
        encode_spec(FrameV::Integer(*self))
    }

    fn encode(self) -> (r: Vec<u8>) {
        encode_frame(&RespFrame::Integer(self))
    }
}

impl RespEncode for bool {
    open spec fn wire_bytes(&self) -> Seq<u8> {
        encode_spec(FrameV::Boolean(*self))
    }

    fn encode(self) -> (r: Vec<u8>) {
        encode_frame(&RespFrame::Boolean(self))
    }
}

impl RespEncode for BulkString {
    open spec fn wire_bytes(&self) -> Seq<u8> {
        encode_spec(FrameV::BulkString(self@))
    }

    fn encode(self) -> (r: Vec<u8>) {
        encode_frame(&RespFrame::BulkString(self))
    }
}

impl RespEncode for RespArray {
    open spec fn wire_bytes(&self) -> Seq<u8> {
        encode_spec(FrameV::Array(self@))
    }

    fn encode(self) -> (r: Vec<u8>) {
        encode_frame(&RespFrame::Array(self))
    }
}

impl RespEncode for RespNull {
    open spec fn wire_bytes(&self) -> Seq<u8> {
        encode_spec(FrameV::Null)
    }

    fn encode(self) -> (r: Vec<u8>) {
        encode_frame(&RespFrame::Null(self))
    }
}

impl RespEncode for RespMap {
    open spec fn wire_bytes(&self) -> Seq<u8> {
        encode_spec(FrameV::MapFrame(self@))
    }

    fn encode(self) -> (r: Vec<u8>) {
        encode_frame(&RespFrame::MapFrame(self))
    }
}

impl RespEncode for RespSet {
    open spec fn wire_bytes(&self) -> Seq<u8> {
        encode_spec(FrameV::SetFrame(self@))
    }

    fn encode(self) -> (r: Vec<u8>) {
        encode_frame(&RespFrame::SetFrame(self))
    }
}

} // verus!
