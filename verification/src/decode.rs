//! Decoding: parses the first complete frame out of a byte slice, strictly
//! left to right, canonicalizing maps and sets, and reports exactly the
//! error taxonomy of the wire grammar.
use vstd::prelude::*;

verus! {

use vstd::string::StringExecFns;

use crate::digits::parse_i64;
use crate::double::float_text_ok;
use crate::error::RespError;
use crate::error::decode_err_matches;
use crate::frame::BulkString;
use crate::frame::RespArray;
use crate::frame::RespFrame;
use crate::frame::RespMap;
use crate::frame::RespNull;
use crate::frame::RespSet;
use crate::frame::SimpleError;
use crate::frame::SimpleString;
use crate::frame::clone_frame;
use crate::frame::frame_view;
use crate::frame::frames_view;
use crate::frame::lemma_frames_view_index;
use crate::frame::lemma_frames_view_push;
use crate::frame::lemma_pairs_view_index;
use crate::frame::lemma_pairs_view_push;
use crate::frame::pairs_view;
use crate::frame::FrameV;
use crate::length::find_crlf_at;
use crate::length::header_at;
use crate::length::lemma_first_crlf_shift;
use crate::length::lemma_skip_skip;
use crate::length::slice_range;
use crate::order::bytes_eq;
use crate::order::lex_lt;
use crate::order::lex_lt_bytes;
use crate::textfmt::debug_string;
use crate::textfmt::is_utf8;
use crate::textfmt::lossy_string;
use crate::wire::DecodeResult;
use crate::wire::MARK_ARRAY;
use crate::wire::MARK_BOOL;
use crate::wire::MARK_BULK;
use crate::wire::MARK_DOUBLE;
use crate::wire::MARK_ERROR;
use crate::wire::MARK_INT;
use crate::wire::MARK_MAP;
use crate::wire::MARK_NULL;
use crate::wire::MARK_SET;
use crate::wire::MARK_SIMPLE;
use crate::wire::decode_children;
use crate::wire::decode_entries;
use crate::wire::decode_of;
use crate::wire::encode_spec;
use crate::wire::lemma_first_crlf_bounds;
use crate::wire::map_canon;
use crate::wire::map_insert;
use crate::wire::set_canon;
use crate::wire::set_insert;

/// Decoding children of a suffix is decoding them at the absolute offset,
/// with the final offset shifted.
pub proof fn lemma_decode_children_shift(b: Seq<u8>, pos: int, off: int, k: nat)
    requires
        0 <= pos <= b.len(),
        0 < off,
    ensures
        decode_children(b.skip(pos), off, k) == match decode_children(b, pos + off, k) {
            Ok((els, fin)) => Ok::<(Seq<FrameV>, int), DecodeResult>((els, fin - pos)),
            Err(e) => Err(e),
        },
    decreases b.len() - pos - off, 1int, k,
{
    let s = b.skip(pos);
    if k == 0 {
    } else if !(0 < off && off <= s.len()) {
        assert(off > s.len());
        assert(pos + off > b.len());
    } else {
        lemma_skip_skip(b, pos, off);
        assert(s.skip(off) =~= b.skip(pos + off));
        match decode_of(s.skip(off)) {
            DecodeResult::Frame(f, l) => {
                if 0 < l && off + l <= s.len() {
                    lemma_decode_children_shift(b, pos, off + l, (k - 1) as nat);
                }
            },
            _ => {},
        }
    }
}

/// Decoding entries of a suffix is decoding them at the absolute offset,
/// with the final offset shifted.
pub proof fn lemma_decode_entries_shift(b: Seq<u8>, pos: int, off: int, k: nat)
    requires
        0 <= pos <= b.len(),
        0 < off,
    ensures
        decode_entries(b.skip(pos), off, k) == match decode_entries(b, pos + off, k) {
            Ok((entries, fin)) => Ok::<(Seq<(Seq<u8>, FrameV)>, int), DecodeResult>(
                (entries, fin - pos),
            ),
            Err(e) => Err(e),
        },
    decreases b.len() - pos - off, 1int, k,
{
    let s = b.skip(pos);
    if k == 0 {
    } else if !(0 < off && off <= s.len()) {
        assert(off > s.len());
        assert(pos + off > b.len());
    } else {
        lemma_skip_skip(b, pos, off);
        assert(s.skip(off) =~= b.skip(pos + off));
        if off < s.len() {
            assert(s[off] == b[pos + off]);
        }
        if !(off < s.len() && s[off] != MARK_SIMPLE) {
            match decode_of(s.skip(off)) {
                DecodeResult::Frame(kf, l) => {
                    if 0 < l && off + l <= s.len() {
                        match kf {
                            FrameV::SimpleString(_) => {
                                lemma_skip_skip(b, pos, off + l);
                                assert(s.skip(off + l) =~= b.skip(pos + off + l));
                                match decode_of(s.skip(off + l)) {
                                    DecodeResult::Frame(vf, l2) => {
                                        if 0 < l2 && off + l + l2 <= s.len() {
                                            lemma_decode_entries_shift(
                                                b,
                                                pos,
                                                off + l + l2,
                                                (k - 1) as nat,
                                            );
                                        }
                                    },
                                    _ => {},
                                }
                            },
                            _ => {},
                        }
                    }
                },
                _ => {},
            }
        }
    }
}

/// Inserting a frame into a vector mirrors inserting its model.
proof fn lemma_frames_view_insert(s: Seq<RespFrame>, i: int, f: RespFrame)
    requires
        0 <= i <= s.len(),
    ensures
        frames_view(s.insert(i, f)) == frames_view(s).insert(i, frame_view(f)),
{
    lemma_frames_view_index(s);
    lemma_frames_view_index(s.insert(i, f));
    assert forall|j: int| 0 <= j < s.len() + 1 implies #[trigger] frames_view(s.insert(i, f))[j]
        == frames_view(s).insert(i, frame_view(f))[j] by {
        if j < i {
            assert(s.insert(i, f)[j] == s[j]);
        } else if j == i {
            assert(s.insert(i, f)[j] == f);
        } else {
            assert(s.insert(i, f)[j] == s[j - 1]);
        }
    }
    assert(frames_view(s.insert(i, f)) =~= frames_view(s).insert(i, frame_view(f)));
}

/// Inserting an entry into a vector mirrors inserting its model.
proof fn lemma_pairs_view_insert(s: Seq<(SimpleString, RespFrame)>, i: int, p: (SimpleString, RespFrame))
    requires
        0 <= i <= s.len(),
    ensures
        pairs_view(s.insert(i, p)) == pairs_view(s).insert(i, (p.0@, frame_view(p.1))),
{
    lemma_pairs_view_index(s);
    lemma_pairs_view_index(s.insert(i, p));
    assert forall|j: int| 0 <= j < s.len() + 1 implies #[trigger] pairs_view(s.insert(i, p))[j]
        == pairs_view(s).insert(i, (p.0@, frame_view(p.1)))[j] by {
        if j < i {
            assert(s.insert(i, p)[j] == s[j]);
        } else if j == i {
            assert(s.insert(i, p)[j] == p);
        } else {
            assert(s.insert(i, p)[j] == s[j - 1]);
        }
    }
    assert(pairs_view(s.insert(i, p)) =~= pairs_view(s).insert(i, (p.0@, frame_view(p.1))));
}

/// Inserts a frame into a run kept sorted and unique by encoded form.
fn set_insert_exec(v: &mut Vec<RespFrame>, f: RespFrame)
    ensures
        frames_view(final (v)@) == set_insert(frames_view(old(v)@), frame_view(f)),
{
    let enc = crate::encode::encode_frame(&f);
    let ghost fv = frames_view(old(v)@);
    proof {
        lemma_frames_view_index(old(v)@);
        assert(fv.skip(0) =~= fv);
        assert(fv.take(0) =~= Seq::<FrameV>::empty());
    }
    let mut i: usize = 0;
    while i < v.len()
        invariant
            i <= v@.len(),
            *v == *old(v),
            fv == frames_view(v@),
            fv.len() == v@.len(),
            set_insert(fv, frame_view(f)) == fv.take(i as int) + set_insert(
                fv.skip(i as int),
                frame_view(f),
            ),
            enc@ == encode_spec(frame_view(f)),
        decreases v@.len() - i,
    {
        let ei = crate::encode::encode_frame(&v[i]);
        proof {
            lemma_frames_view_index(v@);
            assert(fv.skip(i as int)[0] == fv[i as int]);
            assert(fv.skip(i as int).drop_first() =~= fv.skip(i + 1 as int));
        }
        if bytes_eq(enc.as_slice(), ei.as_slice()) {
            proof {
                assert(set_insert(fv.skip(i as int), frame_view(f)) == fv.skip(i as int));
                assert(fv.take(i as int) + fv.skip(i as int) =~= fv);
            }
            return ;
        }
        if lex_lt_bytes(enc.as_slice(), ei.as_slice()) {
            proof {
                assert(set_insert(fv.skip(i as int), frame_view(f)) == seq![frame_view(f)]
                    + fv.skip(i as int));
                assert(fv.take(i as int) + (seq![frame_view(f)] + fv.skip(i as int)) =~= fv.insert(
                    i as int,
                    frame_view(f),
                ));
                lemma_frames_view_insert(v@, i as int, f);
            }
            v.insert(i, f);
            return ;
        }
        proof {
            assert(set_insert(fv.skip(i as int), frame_view(f)) == seq![fv[i as int]] + set_insert(
                fv.skip(i + 1 as int),
                frame_view(f),
            ));
            assert(fv.take(i as int) + (seq![fv[i as int]] + set_insert(
                fv.skip(i + 1 as int),
                frame_view(f),
            )) =~= fv.take(i + 1 as int) + set_insert(fv.skip(i + 1 as int), frame_view(f)));
        }
        i = i + 1;
    }
    proof {
        assert(fv.skip(fv.len() as int) =~= Seq::<FrameV>::empty());
        assert(set_insert(Seq::<FrameV>::empty(), frame_view(f)) == seq![frame_view(f)]);
        lemma_frames_view_push(v@, f);
        assert(fv.take(fv.len() as int).push(frame_view(f)) =~= fv.take(fv.len() as int) + seq![
            frame_view(f)
        ]);
        assert(fv.take(fv.len() as int) =~= fv);
    }
    v.push(f);
}

/// Inserts an entry into a run kept sorted by key; an equal key's value is
/// replaced, the newest write winning.
pub(crate) fn map_insert_exec(v: &mut Vec<(SimpleString, RespFrame)>, key: SimpleString, val: RespFrame)
    ensures
        pairs_view(final (v)@) == map_insert(pairs_view(old(v)@), key@, frame_view(val)),
{
    let ghost pv = pairs_view(old(v)@);
    let ghost kv = key@;
    let ghost m = (key@, frame_view(val));
    proof {
        lemma_pairs_view_index(old(v)@);
        assert(pv.skip(0) =~= pv);
        assert(pv.take(0) =~= Seq::<(Seq<u8>, FrameV)>::empty());
    }
    let mut i: usize = 0;
    while i < v.len()
        invariant
            i <= v@.len(),
            *v == *old(v),
            pv == pairs_view(v@),
            pv.len() == v@.len(),
            kv == key@,
            m == (key@, frame_view(val)),
            map_insert(pv, kv, m.1) == pv.take(i as int) + map_insert(
                pv.skip(i as int),
                kv,
                m.1,
            ),
        decreases v@.len() - i,
    {
        proof {
            lemma_pairs_view_index(v@);
            assert(pv.skip(i as int)[0] == pv[i as int]);
            assert(pv.skip(i as int).drop_first() =~= pv.skip(i + 1 as int));
        }
        if bytes_eq(key.0.as_slice(), v[i].0.0.as_slice()) {
            proof {
                assert(kv == pv[i as int].0);
                assert(map_insert(pv.skip(i as int), kv, m.1) == seq![m] + pv.skip(
                    i + 1 as int,
                ));
            }
            let _ = v.remove(i);
            proof {
                assert(v@ =~= old(v)@.remove(i as int));
                lemma_pairs_view_remove(old(v)@, i as int);
                lemma_pairs_view_insert(v@, i as int, (key, val));
                assert(pairs_view(v@.insert(i as int, (key, val))) =~= pv.take(i as int) + (seq![m]
                    + pv.skip(i + 1 as int)));
            }
            v.insert(i, (key, val));
            return ;
        }
        if lex_lt_bytes(key.0.as_slice(), v[i].0.0.as_slice()) {
            proof {
                assert(lex_lt(kv, pv[i as int].0));
                assert(map_insert(pv.skip(i as int), kv, m.1) == seq![m] + pv.skip(i as int));
                assert(pv.take(i as int) + (seq![m] + pv.skip(i as int)) =~= pv.insert(
                    i as int,
                    m,
                ));
                lemma_pairs_view_insert(v@, i as int, (key, val));
            }
            v.insert(i, (key, val));
            return ;
        }
        proof {
            assert(kv != pv[i as int].0 && !lex_lt(kv, pv[i as int].0));
            assert(map_insert(pv.skip(i as int), kv, m.1) == seq![pv[i as int]] + map_insert(
                pv.skip(i + 1 as int),
                kv,
                m.1,
            ));
            assert(pv.take(i as int) + (seq![pv[i as int]] + map_insert(
                pv.skip(i + 1 as int),
                kv,
                m.1,
            )) =~= pv.take(i + 1 as int) + map_insert(pv.skip(i + 1 as int), kv, m.1));
        }
        i = i + 1;
    }
    proof {
        assert(pv.skip(pv.len() as int) =~= Seq::<(Seq<u8>, FrameV)>::empty());
        assert(map_insert(Seq::<(Seq<u8>, FrameV)>::empty(), kv, m.1) == seq![m]);
        lemma_pairs_view_push(v@, (key, val));
        assert(pv.take(pv.len() as int).push(m) =~= pv.take(pv.len() as int) + seq![m]);
        assert(pv.take(pv.len() as int) =~= pv);
    }
    v.push((key, val));
}

/// Removing an entry from a vector mirrors removing its model.
proof fn lemma_pairs_view_remove(s: Seq<(SimpleString, RespFrame)>, i: int)
    requires
        0 <= i < s.len(),
    ensures
        pairs_view(s.remove(i)) == pairs_view(s).remove(i),
{
    lemma_pairs_view_index(s);
    lemma_pairs_view_index(s.remove(i));
    assert forall|j: int| 0 <= j < s.len() - 1 implies #[trigger] pairs_view(s.remove(i))[j]
        == pairs_view(s).remove(i)[j] by {
        if j < i {
            assert(s.remove(i)[j] == s[j]);
        } else {
            assert(s.remove(i)[j] == s[j + 1]);
        }
    }
    assert(pairs_view(s.remove(i)) =~= pairs_view(s).remove(i));
}

/// Parses the first complete frame starting at `pos`, yielding the frame
/// and the absolute offset just past it.
#[verifier::rlimit(100)]
pub fn parse_at(buf: &[u8], pos: usize) -> (r: Result<(RespFrame, usize), RespError>)
    requires
        pos <= buf@.len(),
    ensures
        match r {
            Ok((f, n)) => decode_of(buf@.skip(pos as int)) == DecodeResult::Frame(
                f@,
                n - pos,
            ) && pos < n <= buf@.len(),
            Err(e) => decode_err_matches(e, decode_of(buf@.skip(pos as int))),
        },
    decreases buf@.len() - pos, 0int,
{
    let ghost s = buf@.skip(pos as int);
    proof {
        lemma_first_crlf_shift(buf@, pos as int, 0);
    }
    if pos == buf.len() {
        return Err(RespError::NotComplete);
    }
    let marker = buf[pos];
    if marker == MARK_SIMPLE || marker == MARK_ERROR || marker == MARK_INT || marker == MARK_NULL
        || marker == MARK_BOOL || marker == MARK_DOUBLE {
        match find_crlf_at(buf, pos) {
            None => Err(RespError::NotComplete),
            Some(p) => {
                proof {
                    lemma_first_crlf_bounds(buf@, pos as int);
                }
                let content = slice_range(buf, pos + 1, p);
                proof {
                    assert(s.subrange(1, (p - pos) as int) =~= buf@.subrange(
                        pos + 1 as int,
                        p as int,
                    ));
                }
                if marker == MARK_SIMPLE {
                    if is_utf8(content) {
                        let payload = vstd::slice::slice_to_vec(content);
                        Ok((RespFrame::SimpleString(SimpleString(payload)), p + 2))
                    } else {
                        Err(RespError::InvalidFrameData(lossy_string(content)))
                    }
                } else if marker == MARK_ERROR {
                    if is_utf8(content) {
                        let payload = vstd::slice::slice_to_vec(content);
                        Ok((RespFrame::SimpleError(SimpleError(payload)), p + 2))
                    } else {
                        Err(RespError::InvalidFrameData(lossy_string(content)))
                    }
                } else if marker == MARK_INT {
                    match parse_i64(content) {
                        Some(value) => Ok((RespFrame::Integer(value), p + 2)),
                        None => Err(RespError::InvalidFrameData(lossy_string(content))),
                    }
                } else if marker == MARK_NULL {
                    if p == pos + 1 {
                        Ok((RespFrame::Null(RespNull), p + 2))
                    } else {
                        let own = slice_range(buf, pos, p + 2);
                        Err(RespError::InvalidFrameData(debug_string(own)))
                    }
                } else if marker == MARK_BOOL {
                    if content.len() == 1 && content[0] == 0x74 {
                        proof {
                            assert(s.subrange(1, (p - pos) as int) =~= seq![0x74u8]);
                        }
                        Ok((RespFrame::Boolean(true), p + 2))
                    } else if content.len() == 1 && content[0] == 0x66 {
                        proof {
                            assert(s.subrange(1, (p - pos) as int) =~= seq![0x66u8]);
                        }
                        Ok((RespFrame::Boolean(false), p + 2))
                    } else {
                        proof {
                            if s.subrange(1, (p - pos) as int) == seq![0x74u8] || s.subrange(
                                1,
                                (p - pos) as int,
                            ) == seq![0x66u8] {
                                assert(content@.len() == 1);
                                assert(content@[0] == 0x74 || content@[0] == 0x66);
                            }
                        }
                        Err(RespError::InvalidFrameData(lossy_string(content)))
                    }
                } else {
                    if float_text_ok(content) {
                        let payload = vstd::slice::slice_to_vec(content);
                        Ok((RespFrame::Double(payload), p + 2))
                    } else {
                        Err(RespError::InvalidFrameData(lossy_string(content)))
                    }
                }
            },
        }
    } else if marker == MARK_BULK {
        match header_at(buf, pos) {
            Err(e) => Err(e),
            Ok((end, n)) => {
                if n < -1 {
                    Err(RespError::InvalidFrameLength(n))
                } else if n == -1 {
                    Ok((RespFrame::BulkString(BulkString(None)), end + 2))
                } else {
                    let avail = buf.len() - (end + 2);
                    if avail >= 2 && (n as u64) <= (avail - 2) as u64 {
                        let cstart = end + 2;
                        let cend = cstart + (n as usize);
                        if buf[cend] == 13 && buf[cend + 1] == 10 {
                            let content = slice_range(buf, cstart, cend);
                            proof {
                                assert(s.subrange(
                                    (cstart - pos) as int,
                                    (cend - pos) as int,
                                ) =~= buf@.subrange(cstart as int, cend as int));
                            }
                            let payload = vstd::slice::slice_to_vec(content);
                            Ok((RespFrame::BulkString(BulkString(Some(payload))), cend + 2))
                        } else {
                            let own = slice_range(buf, pos, cend + 2);
                            Err(RespError::InvalidFrameData(debug_string(own)))
                        }
                    } else {
                        Err(RespError::NotComplete)
                    }
                }
            },
        }
    } else if marker == MARK_ARRAY {
        match header_at(buf, pos) {
            Err(e) => Err(e),
            Ok((end, n)) => {
                if n < -1 {
                    Err(RespError::InvalidFrameLength(n))
                } else if n == -1 {
                    Ok((RespFrame::Array(RespArray(None)), end + 2))
                } else {
                    let r = parse_children(buf, end + 2, n as u64);
                    proof {
                        lemma_decode_children_shift(
                            buf@,
                            pos as int,
                            (end + 2 - pos) as int,
                            n as nat,
                        );
                    }
                    match r {
                        Ok((els, fin)) => Ok((RespFrame::Array(RespArray(Some(els))), fin)),
                        Err(e) => Err(e),
                    }
                }
            },
        }
    } else if marker == MARK_SET {
        match header_at(buf, pos) {
            Err(e) => Err(e),
            Ok((end, n)) => {
                if n < 0 {
                    Err(RespError::InvalidFrameLength(n))
                } else {
                    let r = parse_children(buf, end + 2, n as u64);
                    proof {
                        lemma_decode_children_shift(
                            buf@,
                            pos as int,
                            (end + 2 - pos) as int,
                            n as nat,
                        );
                    }
                    match r {
                        Ok((els, fin)) => {
                            let mut canon: Vec<RespFrame> = Vec::new();
                            let ghost ev = frames_view(els@);
                            proof {
                                lemma_frames_view_index(els@);
                                assert(ev.take(0) =~= Seq::<FrameV>::empty());
                            }
                            let mut j: usize = 0;
                            while j < els.len()
                                invariant
                                    j <= els@.len(),
                                    ev == frames_view(els@),
                                    ev.len() == els@.len(),
                                    frames_view(canon@) == set_canon(ev.take(j as int)),
                                decreases els@.len() - j,
                            {
                                proof {
                                    lemma_frames_view_index(els@);
                                }
                                let f = clone_frame(&els[j]);
                                set_insert_exec(&mut canon, f);
                                proof {
                                    assert(ev.take(j + 1 as int).drop_last() =~= ev.take(
                                        j as int,
                                    ));
                                    assert(ev.take(j + 1 as int).last() == ev[j as int]);
                                }
                                j = j + 1;
                            }
                            proof {
                                assert(ev.take(ev.len() as int) =~= ev);
                            }
                            Ok((RespFrame::SetFrame(RespSet(canon)), fin))
                        },
                        Err(e) => Err(e),
                    }
                }
            },
        }
    } else if marker == MARK_MAP {
        match header_at(buf, pos) {
            Err(e) => Err(e),
            Ok((end, n)) => {
                if n < 0 {
                    Err(RespError::InvalidFrameLength(n))
                } else {
                    let r = parse_entries(buf, end + 2, n as u64);
                    proof {
                        lemma_decode_entries_shift(
                            buf@,
                            pos as int,
                            (end + 2 - pos) as int,
                            n as nat,
                        );
                    }
                    match r {
                        Ok((entries, fin)) => {
                            let mut canon: Vec<(SimpleString, RespFrame)> = Vec::new();
                            let ghost ev = pairs_view(entries@);
                            proof {
                                lemma_pairs_view_index(entries@);
                                assert(ev.take(0) =~= Seq::<(Seq<u8>, FrameV)>::empty());
                            }
                            let mut j: usize = 0;
                            while j < entries.len()
                                invariant
                                    j <= entries@.len(),
                                    ev == pairs_view(entries@),
                                    ev.len() == entries@.len(),
                                    pairs_view(canon@) == map_canon(ev.take(j as int)),
                                decreases entries@.len() - j,
                            {
                                proof {
                                    lemma_pairs_view_index(entries@);
                                }
                                let key = entries[j].0.clone();
                                let value = clone_frame(&entries[j].1);
                                map_insert_exec(&mut canon, key, value);
                                proof {
                                    assert(ev.take(j + 1 as int).drop_last() =~= ev.take(
                                        j as int,
                                    ));
                                    assert(ev.take(j + 1 as int).last() == ev[j as int]);
                                }
                                j = j + 1;
                            }
                            proof {
                                assert(ev.take(ev.len() as int) =~= ev);
                            }
                            Ok((RespFrame::MapFrame(RespMap(canon)), fin))
                        },
                        Err(e) => Err(e),
                    }
                }
            },
        }
    } else {
        Err(RespError::InvalidFrameType(String::from_str("unknown frame type")))
    }
}

/// Parses `k` child frames starting at the absolute offset `off`.
fn parse_children(buf: &[u8], off: usize, k: u64) -> (r: Result<(Vec<RespFrame>, usize), RespError>)
    requires
        0 < off <= buf@.len(),
    ensures
        match r {
            Ok((els, fin)) => decode_children(buf@, off as int, k as nat) == Ok::<
                (Seq<FrameV>, int),
                DecodeResult,
            >((frames_view(els@), fin as int)) && off <= fin <= buf@.len(),
            Err(e) => match decode_children(buf@, off as int, k as nat) {
                Ok(_) => false,
                Err(dr) => decode_err_matches(e, dr),
            },
        },
    decreases buf@.len() - off, 1int,
{
    let mut out: Vec<RespFrame> = Vec::new();
    let mut cur: usize = off;
    let mut remaining: u64 = k;
    loop
        invariant
            off <= cur <= buf@.len(),
            0 < cur,
            remaining <= k,
            decode_children(buf@, off as int, k as nat) == match decode_children(
                buf@,
                cur as int,
                remaining as nat,
            ) {
                Ok((rest, fin)) => Ok::<(Seq<FrameV>, int), DecodeResult>(
                    (frames_view(out@) + rest, fin),
                ),
                Err(e) => Err(e),
            },
        decreases remaining,
    {
        if remaining == 0 {
            proof {
                assert(frames_view(out@) + Seq::<FrameV>::empty() =~= frames_view(out@));
            }
            return Ok((out, cur));
        }
        match parse_at(buf, cur) {
            Err(e) => {
                return Err(e);
            },
            Ok((f, n)) => {
                proof {
                    lemma_frames_view_push(out@, f);
                    assert forall|rest: Seq<FrameV>|
                        true implies frames_view(out@).push(frame_view(f)) + rest == frames_view(
                        out@,
                    ) + (seq![frame_view(f)] + rest) by {
                        assert(frames_view(out@).push(frame_view(f)) + rest =~= frames_view(out@)
                            + (seq![frame_view(f)] + rest));
                    }
                }
                out.push(f);
                cur = n;
                remaining = remaining - 1;
            },
        }
    }
}

/// Parses `k` key/value entries starting at the absolute offset `off`;
/// every key must be a simple string frame.
fn parse_entries(buf: &[u8], off: usize, k: u64) -> (r: Result<
    (Vec<(SimpleString, RespFrame)>, usize),
    RespError,
>)
    requires
        0 < off <= buf@.len(),
    ensures
        match r {
            Ok((entries, fin)) => decode_entries(buf@, off as int, k as nat) == Ok::<
                (Seq<(Seq<u8>, FrameV)>, int),
                DecodeResult,
            >((pairs_view(entries@), fin as int)) && off <= fin <= buf@.len(),
            Err(e) => match decode_entries(buf@, off as int, k as nat) {
                Ok(_) => false,
                Err(dr) => decode_err_matches(e, dr),
            },
        },
    decreases buf@.len() - off, 1int,
{
    let mut out: Vec<(SimpleString, RespFrame)> = Vec::new();
    let mut cur: usize = off;
    let mut remaining: u64 = k;
    loop
        invariant
            off <= cur <= buf@.len(),
            0 < cur,
            remaining <= k,
            decode_entries(buf@, off as int, k as nat) == match decode_entries(
                buf@,
                cur as int,
                remaining as nat,
            ) {
                Ok((rest, fin)) => Ok::<(Seq<(Seq<u8>, FrameV)>, int), DecodeResult>(
                    (pairs_view(out@) + rest, fin),
                ),
                Err(e) => Err(e),
            },
        decreases remaining,
    {
        if remaining == 0 {
            proof {
                assert(pairs_view(out@) + Seq::<(Seq<u8>, FrameV)>::empty() =~= pairs_view(out@));
            }
            return Ok((out, cur));
        }
        if cur == buf.len() {
            proof {
                assert(buf@.skip(cur as int).len() == 0);
                assert(decode_of(buf@.skip(cur as int)) == DecodeResult::Partial);
            }
            return Err(RespError::NotComplete);
        }
        if buf[cur] != MARK_SIMPLE {
            return Err(RespError::InvalidFrameType(String::from_str("expected a simple string key")));
        }
        match parse_at(buf, cur) {
            Err(e) => {
                return Err(e);
            },
            Ok((kf, n)) => {
                match kf {
                    RespFrame::SimpleString(key) => {
                        match parse_at(buf, n) {
                            Err(e) => {
                                return Err(e);
                            },
                            Ok((vf, n2)) => {
                                proof {
                                    lemma_pairs_view_push(out@, (key, vf));
                                    assert forall|rest: Seq<(Seq<u8>, FrameV)>|
                                        true implies pairs_view(out@).push(
                                        (key@, frame_view(vf)),
                                    ) + rest == pairs_view(out@) + (seq![(key@, frame_view(vf))]
                                        + rest) by {
                                        assert(pairs_view(out@).push((key@, frame_view(vf))) + rest
                                            =~= pairs_view(out@) + (seq![(key@, frame_view(vf))]
                                            + rest));
                                    }
                                }
                                out.push((key, vf));
                                cur = n2;
                                remaining = remaining - 1;
                            },
                        }
                    },
                    _ => {
                        // A `+` frame always decodes to a simple string.
                        return Err(RespError::InvalidFrameType(String::from_str(
                            "expected a simple string key",
                        )));
                    },
                }
            },
        }
    }
}

} // verus!
