//! The frame model: the closed set of RESP frame variants, their in-memory
//! representation, and the ghost model (`FrameV`) that all codec contracts
//! speak about.
//!
//! Text payloads (simple strings, simple errors, bulk strings, map keys) are
//! held as their wire bytes. A double is held as its wire text (the bytes
//! between the `,` marker and the terminating CRLF), validated against the
//! grammar of Rust's float parser: the codec frames and checks that text,
//! while turning it into a numeric value is floating-point work that sits
//! with the caller.
use vstd::prelude::*;

verus! {

use vstd::string::StrSliceExecFns;

/// The ghost model of a frame: what a frame *is*, mathematically.
/// Aggregates hold sequences of child models.
pub enum FrameV {
    SimpleString(Seq<u8>),
    SimpleError(Seq<u8>),
    Integer(i64),
    BulkString(Option<Seq<u8>>),
    Array(Option<Seq<FrameV>>),
    Null,
    Boolean(bool),
    Double(Seq<u8>),
    MapFrame(Seq<(Seq<u8>, FrameV)>),
    SetFrame(Seq<FrameV>),
}

/// A simple string: one line of text, wire marker `+`.
#[derive(Debug, PartialEq)]
pub struct SimpleString(pub Vec<u8>);

/// A simple error: one line of text, wire marker `-`.
#[derive(Debug, PartialEq)]
pub struct SimpleError(pub Vec<u8>);

/// A bulk string: a length-prefixed byte sequence, wire marker `$`.
/// `None` is the null sentinel (wire length -1), distinct from `Null`.
#[derive(Debug, PartialEq)]
pub struct BulkString(pub Option<Vec<u8>>);

/// An array of frames, wire marker `*`. `None` is the null sentinel
/// (wire length -1), distinct from `Null` and from an empty array.
#[derive(Debug, PartialEq)]
pub struct RespArray(pub Option<Vec<RespFrame>>);

/// The null frame, wire marker `_`.
#[derive(Debug, PartialEq, Clone)]
pub struct RespNull;

/// A map from simple-string keys to frames, wire marker `%`.
/// Held in canonical form: entries sorted by key bytes, keys unique.
#[derive(Debug, PartialEq)]
pub struct RespMap(pub Vec<(SimpleString, RespFrame)>);

/// A set of frames, wire marker `~`. Decoding canonicalizes a set by
/// sorting and deduplicating on the elements' encoded byte form; a set
/// built programmatically keeps the order it was given.
#[derive(Debug, PartialEq)]
pub struct RespSet(pub Vec<RespFrame>);

/// One RESP protocol frame.
#[derive(Debug, PartialEq)]
pub enum RespFrame {
    SimpleString(SimpleString),
    SimpleError(SimpleError),
    Integer(i64),
    BulkString(BulkString),
    Array(RespArray),
    Null(RespNull),
    Boolean(bool),
    Double(Vec<u8>),
    MapFrame(RespMap),
    SetFrame(RespSet),
}

impl View for SimpleString {
    type V = Seq<u8>;

    open spec fn view(&self) -> Seq<u8> {
        self.0@
    }
}

impl View for SimpleError {
    type V = Seq<u8>;

    open spec fn view(&self) -> Seq<u8> {
        self.0@
    }
}

impl View for BulkString {
    type V = Option<Seq<u8>>;

    open spec fn view(&self) -> Option<Seq<u8>> {
        match self.0 {
            Some(ref v) => Some(v@),
            None => None,
        }
    }
}

/// The model of a sequence of frames, elementwise.
pub open spec fn frames_view(s: Seq<RespFrame>) -> Seq<FrameV>
    decreases s,
{
    if s.len() == 0 {
        Seq::empty()
    } else {
        seq![frame_view(s[0])] + frames_view(s.drop_first())
    }
}

/// The model of a sequence of map entries, elementwise.
pub open spec fn pairs_view(s: Seq<(SimpleString, RespFrame)>) -> Seq<(Seq<u8>, FrameV)>
    decreases s,
{
    if s.len() == 0 {
        Seq::empty()
    } else {
        seq![(s[0].0@, frame_view(s[0].1))] + pairs_view(s.drop_first())
    }
}

/// The model of one frame.
pub open spec fn frame_view(f: RespFrame) -> FrameV
    decreases f,
{
    match f {
        RespFrame::SimpleString(s) => FrameV::SimpleString(s@),
        RespFrame::SimpleError(s) => FrameV::SimpleError(s@),
        RespFrame::Integer(i) => FrameV::Integer(i),
        RespFrame::BulkString(b) => FrameV::BulkString(b@),
        RespFrame::Array(RespArray(None)) => FrameV::Array(None),
        RespFrame::Array(RespArray(Some(v))) => FrameV::Array(Some(frames_view(v@))),
        RespFrame::Null(_) => FrameV::Null,
        RespFrame::Boolean(b) => FrameV::Boolean(b),
        RespFrame::Double(t) => FrameV::Double(t@),
        RespFrame::MapFrame(RespMap(entries)) => FrameV::MapFrame(pairs_view(entries@)),
        RespFrame::SetFrame(RespSet(v)) => FrameV::SetFrame(frames_view(v@)),
    }
}

impl View for RespFrame {
    type V = FrameV;

    open spec fn view(&self) -> FrameV {
        frame_view(*self)
    }
}

impl View for RespArray {
    type V = Option<Seq<FrameV>>;

    open spec fn view(&self) -> Option<Seq<FrameV>> {
        match self.0 {
            Some(ref v) => Some(frames_view(v@)),
            None => None,
        }
    }
}

impl View for RespMap {
    type V = Seq<(Seq<u8>, FrameV)>;

    open spec fn view(&self) -> Seq<(Seq<u8>, FrameV)> {
        pairs_view(self.0@)
    }
}

impl View for RespSet {
    type V = Seq<FrameV>;

    open spec fn view(&self) -> Seq<FrameV> {
        frames_view(self.0@)
    }
}

/// Elementwise view of a frame sequence agrees with indexing.
pub proof fn lemma_frames_view_index(s: Seq<RespFrame>)
    ensures
        frames_view(s).len() == s.len(),
        forall|i: int| 0 <= i < s.len() ==> frames_view(s)[i] == frame_view(#[trigger] s[i]),
    decreases s,
{
    if s.len() > 0 {
        lemma_frames_view_index(s.drop_first());
        assert forall|i: int| 0 <= i < s.len() implies frames_view(s)[i] == frame_view(
            #[trigger] s[i],
        ) by {
            if i > 0 {
                assert(s.drop_first()[i - 1] == s[i]);
                assert(frames_view(s)[i] == frames_view(s.drop_first())[i - 1]);
            }
        }
    }
}

/// Elementwise view of an entry sequence agrees with indexing.
pub proof fn lemma_pairs_view_index(s: Seq<(SimpleString, RespFrame)>)
    ensures
        pairs_view(s).len() == s.len(),
        forall|i: int| 0 <= i < s.len() ==> pairs_view(s)[i] == ((#[trigger] s[i]).0@,
            frame_view(s[i].1)),
    decreases s,
{
    if s.len() > 0 {
        lemma_pairs_view_index(s.drop_first());
        assert forall|i: int| 0 <= i < s.len() implies pairs_view(s)[i] == ((#[trigger] s[i]).0@,
            frame_view(s[i].1)) by {
            if i > 0 {
                assert(s.drop_first()[i - 1] == s[i]);
                assert(pairs_view(s)[i] == pairs_view(s.drop_first())[i - 1]);
            }
        }
    }
}

/// Pushing a frame extends the elementwise view by that frame's model.
pub proof fn lemma_frames_view_push(s: Seq<RespFrame>, f: RespFrame)
    ensures
        frames_view(s.push(f)) == frames_view(s).push(frame_view(f)),
{
    lemma_frames_view_index(s.push(f));
    lemma_frames_view_index(s);
    assert forall|i: int| 0 <= i < s.len() + 1 implies #[trigger] frames_view(s.push(f))[i]
        == frames_view(s).push(frame_view(f))[i] by {
        if i < s.len() {
            assert(s.push(f)[i] == s[i]);
        } else {
            assert(s.push(f)[i] == f);
        }
    }
    assert(frames_view(s.push(f)) =~= frames_view(s).push(frame_view(f)));
}

/// Pushing an entry extends the elementwise view by that entry's model.
pub proof fn lemma_pairs_view_push(s: Seq<(SimpleString, RespFrame)>, p: (SimpleString, RespFrame))
    ensures
        pairs_view(s.push(p)) == pairs_view(s).push((p.0@, frame_view(p.1))),
{
    lemma_pairs_view_index(s.push(p));
    lemma_pairs_view_index(s);
    assert forall|i: int| 0 <= i < s.len() + 1 implies #[trigger] pairs_view(s.push(p))[i]
        == pairs_view(s).push((p.0@, frame_view(p.1)))[i] by {
        if i < s.len() {
            assert(s.push(p)[i] == s[i]);
        } else {
            assert(s.push(p)[i] == p);
        }
    }
    assert(pairs_view(s.push(p)) =~= pairs_view(s).push((p.0@, frame_view(p.1))));
}

/// Copies a byte vector.
pub(crate) fn clone_bytes(v: &Vec<u8>) -> (r: Vec<u8>)
    ensures
        r@ == v@,
{
    let r = v.clone();
    assert(r@ =~= v@);
    r
}

impl Clone for SimpleString {
    fn clone(&self) -> (r: Self)
        ensures
            r@ == self@,
    {
        SimpleString(clone_bytes(&self.0))
    }
}

impl Clone for SimpleError {
    fn clone(&self) -> (r: Self)
        ensures
            r@ == self@,
    {
        SimpleError(clone_bytes(&self.0))
    }
}

impl Clone for BulkString {
    fn clone(&self) -> (r: Self)
        ensures
            r@ == self@,
    {
        match &self.0 {
            Some(v) => BulkString(Some(clone_bytes(v))),
            None => BulkString(None),
        }
    }
}

/// Copies a frame; the copy has the same model.
pub fn clone_frame(f: &RespFrame) -> (r: RespFrame)
    ensures
        frame_view(r) == frame_view(*f),
    decreases *f,
{
    match f {
        RespFrame::SimpleString(s) => RespFrame::SimpleString(s.clone()),
        RespFrame::SimpleError(s) => RespFrame::SimpleError(s.clone()),
        RespFrame::Integer(i) => RespFrame::Integer(*i),
        RespFrame::BulkString(b) => RespFrame::BulkString(b.clone()),
        RespFrame::Array(RespArray(None)) => RespFrame::Array(RespArray(None)),
        RespFrame::Array(RespArray(Some(v))) => RespFrame::Array(
            RespArray(Some(clone_frames(v))),
        ),
        RespFrame::Null(_) => RespFrame::Null(RespNull),
        RespFrame::Boolean(b) => RespFrame::Boolean(*b),
        RespFrame::Double(t) => RespFrame::Double(clone_bytes(t)),
        RespFrame::MapFrame(RespMap(entries)) => RespFrame::MapFrame(
            RespMap(clone_pairs(entries)),
        ),
        RespFrame::SetFrame(RespSet(v)) => RespFrame::SetFrame(RespSet(clone_frames(v))),
    }
}

/// Copies a vector of frames; the copy has the same elementwise model.
pub fn clone_frames(v: &Vec<RespFrame>) -> (r: Vec<RespFrame>)
    ensures
        frames_view(r@) == frames_view(v@),
    decreases v@,
{
    let mut out: Vec<RespFrame> = Vec::new();
    let mut i: usize = 0;
    while i < v.len()
        invariant
            i <= v.len(),
            frames_view(out@) == frames_view(v@.take(i as int)),
            out@.len() == i,
        decreases v.len() - i,
    {
        proof {
            assert(v@.take(i as int).push(v@[i as int]) =~= v@.take(i + 1 as int));
            lemma_frames_view_push(v@.take(i as int), v@[i as int]);
            assert(decreases_to!(v@ => v@[i as int]));
        }
        let c = clone_frame(&v[i]);
        proof {
            lemma_frames_view_push(out@, c);
        }
        out.push(c);
        i = i + 1;
    }
    proof {
        assert(v@.take(v@.len() as int) =~= v@);
    }
    out
}

/// Copies a vector of map entries; the copy has the same elementwise model.
pub fn clone_pairs(entries: &Vec<(SimpleString, RespFrame)>) -> (r: Vec<
    (SimpleString, RespFrame),
>)
    ensures
        pairs_view(r@) == pairs_view(entries@),
    decreases entries@,
{
    let mut out: Vec<(SimpleString, RespFrame)> = Vec::new();
    let mut i: usize = 0;
    while i < entries.len()
        invariant
            i <= entries.len(),
            pairs_view(out@) == pairs_view(entries@.take(i as int)),
            out@.len() == i,
        decreases entries.len() - i,
    {
        proof {
            assert(entries@.take(i as int).push(entries@[i as int]) =~= entries@.take(
                i + 1 as int,
            ));
            lemma_pairs_view_push(entries@.take(i as int), entries@[i as int]);
            assert(decreases_to!(entries@ => entries@[i as int]));
        }
        let pair = (entries[i].0.clone(), clone_frame(&entries[i].1));
        proof {
            lemma_pairs_view_push(out@, pair);
        }
        out.push(pair);
        i = i + 1;
    }
    proof {
        assert(entries@.take(entries@.len() as int) =~= entries@);
    }
    out
}

impl Clone for RespFrame {
    fn clone(&self) -> (r: Self)
        ensures
            r@ == self@,
    {
        clone_frame(self)
    }
}

impl Clone for RespArray {
    fn clone(&self) -> (r: Self)
        ensures
            r@ == self@,
    {
        match &self.0 {
            Some(v) => RespArray(Some(clone_frames(v))),
            None => RespArray(None),
        }
    }
}

impl Clone for RespMap {
    fn clone(&self) -> (r: Self)
        ensures
            r@ == self@,
    {
        RespMap(clone_pairs(&self.0))
    }
}

impl Clone for RespSet {
    fn clone(&self) -> (r: Self)
        ensures
            r@ == self@,
    {
        RespSet(clone_frames(&self.0))
    }
}

impl SimpleString {
    /// Builds a simple string from text; the payload is the text's bytes.
    pub fn new(str: &str) -> (r: Self)
        ensures
            r@ == vstd::utf8::encode_utf8(str@),
    {
        SimpleString(str.as_bytes_vec())
    }

    /// The payload bytes.
    pub fn as_bytes(&self) -> (r: &Vec<u8>)
        ensures
            r@ == self@,
    {
        &self.0
    }
}

impl SimpleError {
    /// Builds a simple error from text; the payload is the text's bytes.
    pub fn new(str: &str) -> (r: Self)
        ensures
            r@ == vstd::utf8::encode_utf8(str@),
    {
        SimpleError(str.as_bytes_vec())
    }

    /// The payload bytes.
    pub fn as_bytes(&self) -> (r: &Vec<u8>)
        ensures
            r@ == self@,
    {
        &self.0
    }
}

impl BulkString {
    /// Builds a bulk string; `None` makes the null bulk string.
    pub fn new(vec: Option<Vec<u8>>) -> (r: Self)
        ensures
            r@ == match vec {
                Some(v) => Some(v@),
                None => None::<Seq<u8>>,
            },
    {
        BulkString(vec)
    }

    /// The payload, if this is not the null bulk string.
    pub fn as_bytes(&self) -> (r: &Option<Vec<u8>>)
        ensures
            *r == self.0,
    {
        &self.0
    }
}

impl RespMap {
    /// An empty map.
    pub fn new() -> (r: Self)
        ensures
            r@ == Seq::<(Seq<u8>, FrameV)>::empty(),
    {
        RespMap(Vec::new())
    }

    /// Writes an entry, keeping entries sorted by key bytes; an equal key's
    /// value is replaced.
    pub fn insert(&mut self, key: SimpleString, value: RespFrame)
        ensures
            final (self)@ == crate::wire::map_insert(old(self)@, key@, frame_view(value)),
    {
        crate::decode::map_insert_exec(&mut self.0, key, value);
    }

    /// The number of entries.
    pub fn len(&self) -> (r: usize)
        ensures
            r == self.0.len(),
    {
        self.0.len()
    }
}

impl Default for RespMap {
    fn default() -> Self {
        RespMap(Vec::new())
    }
}

impl RespNull {
    /// The null frame.
    pub fn new() -> (r: Self)
        ensures
            frame_view(RespFrame::Null(r)) == FrameV::Null,
    {
        RespNull
    }
}

impl RespArray {
    /// Builds an array; `None` makes the null array.
    pub fn new(vec: Option<Vec<RespFrame>>) -> (r: Self)
        ensures
            r@ == match vec {
                Some(v) => Some(frames_view(v@)),
                None => None::<Seq<FrameV>>,
            },
    {
        RespArray(vec)
    }

    /// The elements, if this is not the null array.
    pub fn elements(&self) -> (r: &Option<Vec<RespFrame>>)
        ensures
            *r == self.0,
    {
        &self.0
    }
}

impl RespSet {
    /// Builds a set from the given elements, in the order given.
    pub fn new(vec: Vec<RespFrame>) -> (r: Self)
        ensures
            r@ == frames_view(vec@),
    {
        RespSet(vec)
    }

    /// The elements.
    pub fn elements(&self) -> (r: &Vec<RespFrame>)
        ensures
            *r == self.0,
    {
        &self.0
    }

    /// The number of elements.
    pub fn len(&self) -> (r: usize)
        ensures
            r == self.0.len(),
    {
        self.0.len()
    }
}

} // verus!
