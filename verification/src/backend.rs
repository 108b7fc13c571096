//! The key/value backend: three concurrent maps shared by every
//! connection. The concurrent map type is opaque to the verifier and its
//! operations are interior-mutable, so nothing can be promised about their
//! contents across calls; each wrapper states only what holds of every
//! outcome, and the verified layer above (counting, ordering, assembling
//! reply frames) is proved for every value the store can hand back.
use vstd::prelude::*;

verus! {

use vstd::string::StrSliceExecFns;

broadcast use {vstd::seq_lib::group_to_multiset_ensures, vstd::multiset::group_multiset_axioms};


use crate::frame::BulkString;
use crate::frame::FrameV;
use crate::frame::RespArray;
use crate::frame::RespFrame;
use crate::frame::frame_view;
use crate::frame::frames_view;
use crate::frame::lemma_frames_view_push;
use crate::order::lex_lt;
use crate::order::lex_lt_bytes;

#[verifier::external_type_specification]
#[verifier::external_body]
#[verifier::reject_recursive_types(K)]
#[verifier::reject_recursive_types(V)]
#[verifier::reject_recursive_types(S)]
pub struct ExDashMap<K, V, S>(dashmap::DashMap<K, V, S>);

#[verifier::external_type_specification]
#[verifier::external_body]
#[verifier::reject_recursive_types(K)]
#[verifier::reject_recursive_types(S)]
pub struct ExDashSet<K, S>(dashmap::DashSet<K, S>);

/// Relies on `DashMap::new` for the scalar store.
#[verifier::external_body]
fn new_map_store() -> dashmap::DashMap<String, RespFrame> {
    dashmap::DashMap::new()
}

/// Relies on `DashMap::new` for the hash store.
#[verifier::external_body]
fn new_hmap_store() -> dashmap::DashMap<String, dashmap::DashMap<String, RespFrame>> {
    dashmap::DashMap::new()
}

/// Relies on `DashMap::new` for the set store.
#[verifier::external_body]
fn new_hset_store() -> dashmap::DashMap<String, dashmap::DashSet<String>> {
    dashmap::DashMap::new()
}

/// Relies on `DashMap::get`: looks a key up and copies the value out. The
/// store is shared and interior-mutable, so no relation between calls is
/// claimed.
#[verifier::external_body]
fn dm_get(m: &dashmap::DashMap<String, RespFrame>, key: &str) -> Option<RespFrame> {
    m.get(key).map(|v| v.value().clone())
}

/// Relies on `DashMap::insert`: stores a value, yielding the one it
/// replaced, if any.
#[verifier::external_body]
fn dm_insert(
    m: &dashmap::DashMap<String, RespFrame>,
    key: String,
    value: RespFrame,
) -> Option<RespFrame> {
    m.insert(key, value)
}

/// Relies on `DashMap::contains_key` on the hash store.
#[verifier::external_body]
fn hm_contains(
    m: &dashmap::DashMap<String, dashmap::DashMap<String, RespFrame>>,
    key: &str,
) -> bool {
    m.contains_key(key)
}

/// Relies on `DashMap::get` twice: looks a field up inside a keyed hash
/// and copies the value out.
#[verifier::external_body]
fn hm_get(
    m: &dashmap::DashMap<String, dashmap::DashMap<String, RespFrame>>,
    key: &str,
    field: &str,
) -> Option<RespFrame> {
    m.get(key).and_then(|fields| fields.get(field).map(|v| v.value().clone()))
}

/// Relies on `DashMap::entry` and `DashMap::insert`: stores a field in the
/// keyed hash (creating the hash when absent), yielding the replaced
/// value, if any.
#[verifier::external_body]
fn hm_insert(
    m: &dashmap::DashMap<String, dashmap::DashMap<String, RespFrame>>,
    key: &str,
    field: String,
    value: RespFrame,
) -> Option<RespFrame> {
    m.entry(key.to_string()).or_default().insert(field, value)
}

/// Relies on `DashMap::get` and `Iter`: copies out the keyed hash's
/// entries. The iteration order is unspecified.
#[verifier::external_body]
fn hm_entries(
    m: &dashmap::DashMap<String, dashmap::DashMap<String, RespFrame>>,
    key: &str,
) -> Option<Vec<(String, RespFrame)>> {
    m.get(key).map(
        |fields| fields.iter().map(|e| (e.key().clone(), e.value().clone())).collect(),
    )
}

/// Relies on `DashMap::entry` and `DashSet::insert`: adds a member to the
/// keyed set (creating the set when absent); true when it was new.
#[verifier::external_body]
fn hs_insert(
    m: &dashmap::DashMap<String, dashmap::DashSet<String>>,
    key: &str,
    field: String,
) -> bool {
    m.entry(key.to_string()).or_default().insert(field)
}

/// Relies on `DashMap::get` and `DashSet::contains`: membership in the
/// keyed set.
#[verifier::external_body]
fn hs_contains(m: &dashmap::DashMap<String, dashmap::DashSet<String>>, key: &str, field: &str) -> bool {
    m.get(key).map(|s| s.contains(field)).unwrap_or(false)
}

/// The shared store behind every connection.
#[derive(Clone)]
pub struct BackendInner {
    map: std::sync::Arc<dashmap::DashMap<String, RespFrame>>,
    hmap: std::sync::Arc<dashmap::DashMap<String, dashmap::DashMap<String, RespFrame>>>,
    hset: std::sync::Arc<dashmap::DashMap<String, dashmap::DashSet<String>>>,
}

/// A cloneable handle on the shared store.
#[derive(Clone)]
pub struct Backend(pub BackendInner);

/// The reply shape of a hash read-out: key/value pairs flattened into one
/// run of frames, every key a bulk string, keys in byte order.
pub open spec fn hgetall_shape(els: Seq<FrameV>) -> bool {
    &&& els.len() % 2 == 0
    &&& forall|i: int|
        0 <= i < els.len() && i % 2 == 0 ==> ((#[trigger] els[i]) matches FrameV::BulkString(
            Some(_),
        ))
    &&& forall|i: int|
        #![trigger els[i], els[i + 2]]
        0 <= i && i + 2 < els.len() && i % 2 == 0 ==> !lex_lt(
            els[i + 2]->BulkString_0->0,
            els[i]->BulkString_0->0,
        )
}

impl BackendInner {
    fn new() -> Self {
        BackendInner {
            map: std::sync::Arc::new(new_map_store()),
            hmap: std::sync::Arc::new(new_hmap_store()),
            hset: std::sync::Arc::new(new_hset_store()),
        }
    }

    /// Reads a key from the scalar store.
    pub fn get(&self, key: &str) -> Option<RespFrame> {
        dm_get(&self.map, key)
    }

    /// Writes a key into the scalar store, yielding the replaced value.
    pub fn set(&self, key: String, value: RespFrame) -> Option<RespFrame> {
        dm_insert(&self.map, key, value)
    }

    /// Reads one field of a keyed hash.
    pub fn hget(&self, key: &str, field: &str) -> Option<RespFrame> {
        hm_get(&self.hmap, key, field)
    }

    /// Reads several fields of a keyed hash: `None` when the key has no
    /// hash at all, otherwise one (possibly absent) value per field asked.
    pub fn hmget(&self, key: &str, fields: &[String]) -> (r: Option<Vec<Option<RespFrame>>>)
        ensures
            r matches Some(values) ==> values@.len() == fields@.len(),
    {
        if !hm_contains(&self.hmap, key) {
            return None;
        }
        let mut values: Vec<Option<RespFrame>> = Vec::new();
        let mut i: usize = 0;
        while i < fields.len()
            invariant
                i <= fields@.len(),
                values@.len() == i,
            decreases fields@.len() - i,
        {
            values.push(hm_get(&self.hmap, key, fields[i].as_str()));
            i = i + 1;
        }
        Some(values)
    }

    /// Writes fields into a keyed hash, pairing fields with values, and
    /// reports how many were new.
    pub fn hmset(&self, key: String, fields: Vec<String>, values: Vec<RespFrame>) -> (r: RespFrame)
        ensures
            r matches RespFrame::Integer(c) && 0 <= c <= fields@.len(),
    {
        let n = if fields.len() < values.len() {
            fields.len()
        } else {
            values.len()
        };
        let mut count: i64 = 0;
        let mut i: usize = 0;
        while i < n
            invariant
                n <= fields@.len(),
                n <= values@.len(),
                i <= n,
                0 <= count <= i,
            decreases n - i,
        {
            let value = crate::frame::clone_frame(&values[i]);
            let field = fields[i].clone();
            if hm_insert(&self.hmap, key.as_str(), field, value).is_none() {
                if count < i64::MAX {
                    count = count + 1;
                }
            }
            i = i + 1;
        }
        RespFrame::Integer(count)
    }

    /// Reads a whole keyed hash: `None` when absent, otherwise an array
    /// frame alternating field name (bulk string) and value, fields in
    /// byte order.
    pub fn hgetall(&self, key: &str) -> (r: Option<RespFrame>)
        ensures
            r matches Some(f) ==> (frame_view(f) matches FrameV::Array(Some(els))
                && hgetall_shape(els)),
    {
        match hm_entries(&self.hmap, key) {
            None => None,
            Some(entries) => Some(hash_reply(entries)),
        }
    }

    /// Adds members to a keyed set and reports how many were new.
    pub fn sadd(&self, key: String, fields: Vec<String>) -> (r: RespFrame)
        ensures
            r matches RespFrame::Integer(c) && 0 <= c <= fields@.len(),
    {
        let mut count: i64 = 0;
        let mut i: usize = 0;
        while i < fields.len()
            invariant
                i <= fields@.len(),
                0 <= count <= i,
            decreases fields@.len() - i,
        {
            let field = fields[i].clone();
            if hs_insert(&self.hset, key.as_str(), field) {
                if count < i64::MAX {
                    count = count + 1;
                }
            }
            i = i + 1;
        }
        RespFrame::Integer(count)
    }

    /// Membership in a keyed set: the integer one or zero.
    pub fn sismember(&self, key: &str, field: &str) -> (r: RespFrame)
        ensures
            r == RespFrame::Integer(1) || r == RespFrame::Integer(0),
    {
        if hs_contains(&self.hset, key, field) {
            RespFrame::Integer(1)
        } else {
            RespFrame::Integer(0)
        }
    }
}

/// The view of raw hash entries: each field name as its text's bytes, each
/// value as its frame model.
pub open spec fn entry_views(s: Seq<(String, RespFrame)>) -> Seq<(Seq<u8>, FrameV)> {
    Seq::new(s.len(), |i: int| (vstd::utf8::encode_utf8(s[i].0@), frame_view(s[i].1)))
}

/// The view of byte-keyed pairs.
pub open spec fn keyed_views(s: Seq<(Vec<u8>, RespFrame)>) -> Seq<(Seq<u8>, FrameV)> {
    Seq::new(s.len(), |i: int| (s[i].0@, frame_view(s[i].1)))
}

/// The field/value pairs a flattened reply run carries: each even slot a
/// field name, the slot after it the value.
pub open spec fn reply_pairs(els: Seq<FrameV>) -> Seq<(Seq<u8>, FrameV)> {
    Seq::new(els.len() / 2, |i: int| (els[2 * i]->BulkString_0->0, els[2 * i + 1]))
}

/// Inserting anywhere in a run adds one occurrence to its multiset.
proof fn lemma_to_multiset_insert<A>(s: Seq<A>, i: int, x: A)
    requires
        0 <= i <= s.len(),
    ensures
        s.insert(i, x).to_multiset() =~= s.to_multiset().insert(x),
{
    vstd::seq_lib::lemma_multiset_commutative(s.take(i).push(x), s.skip(i));
    vstd::seq_lib::lemma_multiset_commutative(s.take(i), s.skip(i));
    assert(s.insert(i, x) =~= s.take(i).push(x) + s.skip(i));
    assert(s.take(i) + s.skip(i) =~= s);
    assert(s.take(i).push(x).to_multiset() =~= s.take(i).to_multiset().insert(x));
    assert(s.insert(i, x).to_multiset() =~= s.to_multiset().insert(x));
}

/// Turns a hash's entries into its reply frame: an array alternating field
/// name (as a bulk string) and value, fields in byte order, carrying
/// exactly the entries handed in — the reply's pairs are the entries'
/// pairs, as multisets.
pub fn hash_reply(entries: Vec<(String, RespFrame)>) -> (r: RespFrame)
    ensures
        ({
            let fv = frame_view(r);
            &&& fv matches FrameV::Array(Some(els))
            &&& hgetall_shape(fv->Array_0->0)
            &&& fv->Array_0->0.len() == 2 * entries@.len()
            &&& reply_pairs(fv->Array_0->0).to_multiset() == entry_views(entries@).to_multiset()
        }),
{
    let ghost orig = entries@;
    // Order the entries by field-name bytes.
    let mut sorted: Vec<(Vec<u8>, RespFrame)> = Vec::new();
    let mut entries = entries;
    proof {
        assert(entries@ =~= orig.take(entries@.len() as int));
        assert(entry_views(orig).skip(entries@.len() as int) =~= Seq::<(Seq<u8>, FrameV)>::empty());
        assert(keyed_views(sorted@) =~= Seq::<(Seq<u8>, FrameV)>::empty());
    }
    while entries.len() > 0
        invariant
            sorted_by_key(sorted@),
            entries@.len() <= orig.len(),
            entries@ =~= orig.take(entries@.len() as int),
            keyed_views(sorted@).to_multiset() =~= entry_views(orig).skip(
                entries@.len() as int,
            ).to_multiset(),
        decreases entries@.len(),
    {
        let ghost m = entries@.len() as int;
        proof {
            assert(1 <= m <= orig.len());
            assert(entries@[m - 1] == orig[m - 1]);
        }
        let (k, v) = match entries.pop() {
            Some(e) => e,
            None => {
                proof {
                    assert(false);
                }
                (String::new(), RespFrame::Null(crate::frame::RespNull))
            },
        };
        proof {
            assert((k, v) == orig[m - 1]);
            assert(entries@ =~= orig.take(m - 1));
        }
        let kb = k.as_str().as_bytes_vec();
        let ghost p = (kb@, frame_view(v));
        proof {
            assert(p == entry_views(orig)[m - 1]);
            assert(entry_views(orig).skip(m - 1) =~= entry_views(orig).skip(m).insert(0, p));
            lemma_to_multiset_insert(entry_views(orig).skip(m), 0, p);
        }
        insert_sorted(&mut sorted, kb, v);
    }
    proof {
        assert(entry_views(orig).skip(0) =~= entry_views(orig));
        assert(keyed_views(sorted@).to_multiset() =~= entry_views(orig).to_multiset());
        assert(keyed_views(sorted@).len() == keyed_views(sorted@).to_multiset().len());
        assert(entry_views(orig).len() == entry_views(orig).to_multiset().len());
        assert(sorted@.len() == orig.len());
    }
    // Flatten: field name as a bulk string, then the value.
    let mut out: Vec<RespFrame> = Vec::new();
    let mut j: usize = 0;
    while j < sorted.len()
        invariant
            sorted_by_key(sorted@),
            j <= sorted@.len(),
            out@.len() == 2 * j,
            frames_view(out@).len() == 2 * j,
            forall|x: int|
                0 <= x < out@.len() && x % 2 == 0 ==> frames_view(out@)[x]
                    == FrameV::BulkString(Some(sorted@[x / 2].0@)),
            forall|x: int|
                0 <= x < out@.len() && x % 2 == 1 ==> frames_view(out@)[x] == frame_view(
                    sorted@[x / 2].1,
                ),
        decreases sorted@.len() - j,
    {
        let ghost prev = frames_view(out@);
        let kb = crate::frame::clone_bytes(&sorted[j].0);
        let kf = RespFrame::BulkString(BulkString(Some(kb)));
        let vf = crate::frame::clone_frame(&sorted[j].1);
        proof {
            lemma_frames_view_push(out@, kf);
            lemma_frames_view_push(out@.push(kf), vf);
        }
        out.push(kf);
        out.push(vf);
        proof {
            assert(frames_view(out@) =~= prev.push(frame_view(kf)).push(frame_view(vf)));
            assert(frame_view(kf) == FrameV::BulkString(Some(sorted@[j as int].0@)));
            assert(frame_view(vf) == frame_view(sorted@[j as int].1));
            assert forall|x: int|
                0 <= x < out@.len() && x % 2 == 0 implies frames_view(out@)[x]
                == FrameV::BulkString(Some(sorted@[x / 2].0@)) by {
                if x < prev.len() {
                    assert(frames_view(out@)[x] == prev[x]);
                } else {
                    assert(x == prev.len());
                    assert(x / 2 == j as int);
                }
            }
            assert forall|x: int|
                0 <= x < out@.len() && x % 2 == 1 implies frames_view(out@)[x] == frame_view(
                sorted@[x / 2].1,
            ) by {
                if x < prev.len() {
                    assert(frames_view(out@)[x] == prev[x]);
                } else {
                    assert(x == prev.len() + 1);
                    assert(x / 2 == j as int);
                }
            }
        }
        j = j + 1;
    }
    proof {
        let els = frames_view(out@);
        assert forall|i: int|
            0 <= i < els.len() && i % 2 == 0 implies ((#[trigger] els[i])
            matches FrameV::BulkString(Some(_))) by {
            assert(els[i] == FrameV::BulkString(Some(sorted@[i / 2].0@)));
        }
        assert forall|i: int|
            #![trigger els[i], els[i + 2]]
            0 <= i && i + 2 < els.len() && i % 2 == 0 implies !lex_lt(
            els[i + 2]->BulkString_0->0,
            els[i]->BulkString_0->0,
        ) by {
            assert(els[i] == FrameV::BulkString(Some(sorted@[i / 2].0@)));
            assert((i + 2) % 2 == 0);
            assert(els[i + 2] == FrameV::BulkString(Some(sorted@[(i + 2) / 2].0@)));
            assert((i + 2) / 2 == i / 2 + 1);
            assert(!lex_lt(sorted@[i / 2 + 1].0@, sorted@[i / 2].0@));
        }
        assert(hgetall_shape(els));
        assert forall|i: int| 0 <= i < els.len() / 2 implies #[trigger] reply_pairs(els)[i]
            == keyed_views(sorted@)[i] by {
            assert(els[2 * i] == FrameV::BulkString(Some(sorted@[i].0@)));
            assert((2 * i) % 2 == 0);
            assert((2 * i + 1) % 2 == 1);
            assert((2 * i) / 2 == i && (2 * i + 1) / 2 == i);
            assert(els[2 * i + 1] == frame_view(sorted@[i].1));
        }
        assert(reply_pairs(els) =~= keyed_views(sorted@));
    }
    RespFrame::Array(RespArray(Some(out)))
}

/// Keys ascend (non-strictly) through the run.
pub open spec fn sorted_by_key(s: Seq<(Vec<u8>, RespFrame)>) -> bool {
    forall|i: int|
        0 <= i < s.len() - 1 ==> !lex_lt((#[trigger] s[i + 1]).0@, s[i].0@)
}

/// Inserts a keyed value into a run kept sorted by key bytes.
#[verifier::loop_isolation(false)]
fn insert_sorted(v: &mut Vec<(Vec<u8>, RespFrame)>, key: Vec<u8>, value: RespFrame)
    requires
        sorted_by_key(old(v)@),
    ensures
        sorted_by_key(final (v)@),
        keyed_views(final (v)@).to_multiset() =~= keyed_views(old(v)@).to_multiset().insert(
            (key@, frame_view(value)),
        ),
{
    let ghost p = (key@, frame_view(value));
    let mut i: usize = 0;
    while i < v.len()
        invariant
            i <= v@.len(),
            *v == *old(v),
            sorted_by_key(v@),
            forall|x: int| 0 <= x < i ==> !lex_lt(key@, (#[trigger] v@[x]).0@),
        decreases v@.len() - i,
    {
        if lex_lt_bytes(key.as_slice(), v[i].0.as_slice()) {
            let ghost before = v@;
            let ghost kv = key@;
            proof {
                assert(lex_lt(kv, before[i as int].0@));
                assert(forall|x: int|
                    0 <= x < i ==> !lex_lt(kv, (#[trigger] before[x]).0@));
            }
            v.insert(i, (key, value));
            proof {
                assert(v@ =~= before.insert(i as int, (v@[i as int].0, v@[i as int].1)));
                assert(v@[i as int].0@ == kv);
                assert(frame_view(v@[i as int].1) == p.1);
                assert forall|x: int| 0 <= x < v@.len() implies #[trigger] keyed_views(v@)[x]
                    == keyed_views(before).insert(i as int, p)[x] by {
                    assert(keyed_views(before).insert(i as int, p) == keyed_views(
                        before,
                    ).subrange(0, i as int).push(p) + keyed_views(before).subrange(
                        i as int,
                        keyed_views(before).len() as int,
                    ));
                    if x < i {
                        assert(v@[x] == before[x]);
                    } else if x > i {
                        assert(v@[x] == before[x - 1]);
                    }
                }
                assert(keyed_views(v@) =~= keyed_views(before).insert(i as int, p));
                lemma_to_multiset_insert(keyed_views(before), i as int, p);
                assert(v@ =~= before.insert(i as int, (v@[i as int].0, v@[i as int].1)));
                assert(v@[i as int].0@ == kv);
                assert forall|x: int| 0 <= x < v@.len() - 1 implies !lex_lt(
                    (#[trigger] v@[x + 1]).0@,
                    v@[x].0@,
                ) by {
                    if x + 1 < i {
                        assert(v@[x] == before[x]);
                        assert(v@[x + 1] == before[x + 1]);
                        assert(!lex_lt(before[x + 1].0@, before[x].0@));
                    } else if x + 1 == i {
                        assert(v@[x] == before[x]);
                        assert(v@[x + 1].0@ == kv);
                        assert(!lex_lt(kv, before[x].0@));
                    } else if x == i {
                        assert(v@[x].0@ == kv);
                        assert(v@[x + 1] == before[x]);
                        crate::order::lemma_lex_trichotomy(kv, before[x].0@);
                    } else {
                        assert(v@[x] == before[x - 1]);
                        assert(v@[x + 1] == before[x]);
                        assert(0 <= x - 1 < before.len() - 1);
                        assert(!lex_lt(before[x - 1 + 1].0@, before[x - 1].0@));
                    }
                }
            }
            return ;
        }
        proof {
            crate::order::lemma_lex_trichotomy(key@, v@[i as int].0@);
        }
        i = i + 1;
    }
    let ghost before = v@;
    let ghost kv = key@;
    proof {
        assert(i as int == before.len());
        assert(forall|x: int| 0 <= x < before.len() ==> !lex_lt(kv, (#[trigger] before[x]).0@));
    }
    v.push((key, value));
    proof {
        assert forall|x: int| 0 <= x < v@.len() implies #[trigger] keyed_views(v@)[x]
            == keyed_views(before).push(p)[x] by {
            if x < before.len() {
                assert(v@[x] == before[x]);
            }
        }
        assert(keyed_views(v@) =~= keyed_views(before).push(p));
        assert(keyed_views(before).push(p).to_multiset() =~= keyed_views(
            before,
        ).to_multiset().insert(p));
        assert(v@.len() == before.len() + 1);
        assert(v@[before.len() as int].0@ == kv);
        assert forall|x: int| 0 <= x < v@.len() - 1 implies !lex_lt(
            (#[trigger] v@[x + 1]).0@,
            v@[x].0@,
        ) by {
            assert(v@[x] == before[x]);
            if x + 1 < v@.len() - 1 {
                assert(v@[x + 1] == before[x + 1]);
                assert(!lex_lt(before[x + 1].0@, before[x].0@));
            } else {
                assert(v@[x + 1].0@ == kv);
                assert(!lex_lt(kv, before[x].0@));
            }
        }
    }
}

impl Backend {
    /// A fresh, empty store.
    pub fn new() -> Self {
        Backend(BackendInner::new())
    }

    /// Reads a key from the scalar store.
    pub fn get(&self, key: &str) -> Option<RespFrame> {
        self.0.get(key)
    }

    /// Writes a key into the scalar store.
    pub fn set(&self, key: String, value: RespFrame) -> Option<RespFrame> {
        self.0.set(key, value)
    }

    /// Reads one field of a keyed hash.
    pub fn hget(&self, key: &str, field: &str) -> Option<RespFrame> {
        self.0.hget(key, field)
    }

    /// Reads several fields of a keyed hash.
    pub fn hmget(&self, key: &str, fields: &[String]) -> (r: Option<Vec<Option<RespFrame>>>)
        ensures
            r matches Some(values) ==> values@.len() == fields@.len(),
    {
        self.0.hmget(key, fields)
    }

    /// Writes fields into a keyed hash.
    pub fn hmset(&self, key: String, fields: Vec<String>, values: Vec<RespFrame>) -> (r: RespFrame)
        ensures
            r matches RespFrame::Integer(c) && 0 <= c <= fields@.len(),
    {
        self.0.hmset(key, fields, values)
    }

    /// Reads a whole keyed hash.
    pub fn hgetall(&self, key: &str) -> (r: Option<RespFrame>)
        ensures
            r matches Some(f) ==> (frame_view(f) matches FrameV::Array(Some(els))
                && hgetall_shape(els)),
    {
        self.0.hgetall(key)
    }

    /// Adds members to a keyed set.
    pub fn sadd(&self, key: String, fields: Vec<String>) -> (r: RespFrame)
        ensures
            r matches RespFrame::Integer(c) && 0 <= c <= fields@.len(),
    {
        self.0.sadd(key, fields)
    }

    /// Membership in a keyed set.
    pub fn sismember(&self, key: &str, field: &str) -> (r: RespFrame)
        ensures
            r == RespFrame::Integer(1) || r == RespFrame::Integer(0),
    {
        self.0.sismember(key, field)
    }
}

impl Default for Backend {
    fn default() -> Self {
        Backend::new()
    }
}

} // verus!
