use vstd::prelude::*;

use ahash::AHashSet;

use crate::codec::{be16, be64, be64_value, StoreError, KeySerializer};
use crate::event::{type_code, Event, EventType};
use crate::serial::{deserialize_events, enc_events};
use crate::retention::{has_short_index_key, old_span_keys, purged_keys, spec_snowflake_from_duration};
use crate::hashed::{id_set_contains, id_set_contents, id_set_insert, id_set_new, id_set_to_vec};
use crate::kv::{has_prefix, key_views, MemoryStore};
use crate::tracer::{index_prefix, span_key, span_key_bytes, SUBSPACE_TELEMETRY, TAG_INDEX};

verus! {

broadcast use vstd::seq_lib::group_to_multiset_ensures;

/// One predicate of a span query.
pub enum TracingQuery {
    EventType(EventType),
    QueueId(u64),
    Keywords(String),
}

/// The UTF-8 bytes of a keyword.
pub open spec fn keyword_bytes(s: String) -> Seq<u8> {
    vstd::utf8::encode_utf8(s@)
}

/// Whether a keyword is written between double quotes.
pub open spec fn is_quoted(b: Seq<u8>) -> bool {
    b.len() >= 2 && b[0] == 34u8 && b[b.len() - 1] == 34u8
}

/// The index value a predicate looks up.
pub open spec fn param_value(p: TracingQuery) -> Seq<u8> {
    match p {
        TracingQuery::EventType(t) => be16(type_code(t)),
        TracingQuery::QueueId(id) => be64(id),
        TracingQuery::Keywords(s) => {
            let b = keyword_bytes(s);
            if is_quoted(b) {
                b.subrange(1, b.len() - 1)
            } else {
                b
            }
        },
    }
}

/// The length that a matching index key must have without its two-byte
/// prefix, or zero when any length matches (an unquoted keyword matches by
/// prefix).
pub open spec fn param_exact_len(p: TracingQuery) -> int {
    match p {
        TracingQuery::EventType(_) => 10,
        TracingQuery::QueueId(_) => 16,
        TracingQuery::Keywords(s) => if is_quoted(keyword_bytes(s)) {
            keyword_bytes(s).len() - 2 + 8
        } else {
            0
        },
    }
}

/// Whether store key `k` answers a predicate that looks up `value` with
/// length check `exact`.
pub open spec fn key_hits(k: Seq<u8>, value: Seq<u8>, exact: int) -> bool {
    has_prefix(k, index_prefix() + value) && (exact == 0 || k.len() - 2 == exact)
}

/// The span id in the last eight bytes of a key.
pub open spec fn key_span_id(k: Seq<u8>) -> u64 {
    be64_value(k.subrange(k.len() - 8, k.len() as int))
}

/// Whether a span id lies in the window; a zero bound is no bound.
pub open spec fn in_window(s: u64, from: u64, to: u64) -> bool {
    (from == 0 || s >= from) && (to == 0 || s <= to)
}

/// Whether the store holds a key that answers `p` but is too short to end
/// in a span id.
pub open spec fn param_corrupt(m: Map<Seq<u8>, Seq<u8>>, p: TracingQuery) -> bool {
    exists|k: Seq<u8>|
        m.contains_key(k) && #[trigger] key_hits(k, param_value(p), param_exact_len(p)) && k.len()
            < 10
}

/// The span ids in the window that predicate `p` finds in the store.
pub open spec fn param_ids(m: Map<Seq<u8>, Seq<u8>>, p: TracingQuery, from: u64, to: u64) -> Set<
    u64,
> {
    Set::new(
        |s: u64|
            exists|k: Seq<u8>|
                m.contains_key(k) && #[trigger] key_hits(k, param_value(p), param_exact_len(p))
                    && k.len() >= 10 && key_span_id(k) == s && in_window(s, from, to),
    )
}

/// The span ids that every predicate finds; none when there is no predicate.
pub open spec fn query_ids(m: Map<Seq<u8>, Seq<u8>>, ps: Seq<TracingQuery>, from: u64, to: u64) -> Set<
    u64,
> {
    Set::new(
        |s: u64|
            ps.len() > 0 && forall|i: int|
                0 <= i < ps.len() ==> #[trigger] param_ids(m, ps[i], from, to).contains(s),
    )
}

/// Whether a sequence always decreases.
pub open spec fn strictly_descending(v: Seq<u64>) -> bool {
    forall|i: int, j: int| 0 <= i < j < v.len() ==> v[i] > v[j]
}

/// Relies on `slice::sort_unstable`: the same elements, in ascending order.
#[verifier::external_body]
fn sort_ascending(v: &mut Vec<u64>)
    ensures
        final(v)@.to_multiset() == old(v)@.to_multiset(),
        forall|i: int, j: int| 0 <= i < j < final(v)@.len() ==> final(v)@[i] <= final(v)@[j],
{
    v.sort_unstable();
}

/// Sorts span ids newest first, each once.
fn sort_descending(v: Vec<u64>) -> (r: Vec<u64>)
    ensures
        strictly_descending(r@),
        r@.to_set() == v@.to_set(),
{
    let ghost v0 = v@;
    let mut v = v;
    sort_ascending(&mut v);
    proof {
        assert forall|x: u64| v@.contains(x) <==> v0.contains(x) by {
            assert(v@.contains(x) <==> v@.to_multiset().count(x) > 0);
            assert(v0.contains(x) <==> v0.to_multiset().count(x) > 0);
        }
        assert(v@.to_set() =~= v0.to_set());
    }
    let mut r: Vec<u64> = Vec::new();
    let mut i: usize = v.len();
    while i > 0
        invariant
            i <= v@.len(),
            forall|a: int, b: int| 0 <= a < b < v@.len() ==> v@[a] <= v@[b],
            strictly_descending(r@),
            r@.len() > 0 ==> i < v@.len() && r@.last() == v@[i as int],
            r@.len() == 0 ==> i == v@.len(),
            forall|x: u64| r@.contains(x) <==> exists|t: int| i <= t < v@.len() && v@[t] == x,
        decreases i,
    {
        i = i - 1;
        let x = v[i];
        let ghost r0 = r@;
        if r.len() == 0 || x < r[r.len() - 1] {
            r.push(x);
            assert forall|y: u64| r@.contains(y) <==> exists|t: int| i <= t < v@.len() && v@[t] == y by {
                if r@.contains(y) && y != x {
                    let k = choose|k: int| 0 <= k < r@.len() && r@[k] == y;
                    assert(r0[k] == y);
                    assert(r0.contains(y));
                }
                if y == x {
                    assert(r@[r@.len() - 1] == y);
                }
                if exists|t: int| i <= t < v@.len() && v@[t] == y {
                    if y != x {
                        let t = choose|t: int| i <= t < v@.len() && v@[t] == y;
                        assert(t != i);
                        assert(r0.contains(y));
                        let k = choose|k: int| 0 <= k < r0.len() && r0[k] == y;
                        assert(r@[k] == y);
                    }
                }
            }
        } else {
            assert(x == r@.last());
            assert forall|y: u64| r@.contains(y) <==> exists|t: int| i <= t < v@.len() && v@[t] == y by {
                if exists|t: int| i <= t < v@.len() && v@[t] == y {
                    let t = choose|t: int| i <= t < v@.len() && v@[t] == y;
                    if t == i {
                        assert(r@[r@.len() - 1] == y);
                    } else {
                        assert(exists|t2: int| i + 1 <= t2 < v@.len() && v@[t2] == y);
                    }
                }
                if r@.contains(y) {
                    assert(r0.contains(y));
                    let t = choose|t: int| i + 1 <= t < v@.len() && v@[t] == y;
                }
            }
        }
    }
    proof {
        assert forall|x: u64| r@.contains(x) <==> v@.contains(x) by {
            if v@.contains(x) {
                let t = choose|t: int| 0 <= t < v@.len() && v@[t] == x;
                assert(exists|t2: int| 0 <= t2 < v@.len() && v@[t2] == x);
            }
        }
        assert(r@.to_set() =~= v@.to_set());
    }
    r
}

/// Collects the span ids that predicates find: a list when the query has a
/// single predicate, a set when their results are to be intersected.
pub enum SpanCollector {
    Vec(Vec<u64>),
    HashSet(AHashSet<u64>),
    Empty,
}

impl SpanCollector {
    /// The span ids collected.
    pub open spec fn ids(&self) -> Set<u64> {
        match self {
            SpanCollector::Vec(v) => v@.to_set(),
            SpanCollector::HashSet(s) => id_set_contents(*s),
            SpanCollector::Empty => Set::empty(),
        }
    }

    pub fn new(num_params: usize) -> (r: Self)
        ensures
            r.ids() == Set::<u64>::empty(),
            num_params == 1 ==> (r matches SpanCollector::Vec(v) && v@.len() == 0),
            num_params != 1 ==> r is HashSet,
    {
        if num_params == 1 {
            let r = SpanCollector::Vec(Vec::new());
            assert(r.ids() =~= Set::<u64>::empty());
            r
        } else {
            SpanCollector::HashSet(id_set_new())
        }
    }

    pub fn insert(&mut self, span_id: u64)
        requires
            !((*old(self)) is Empty),
        ensures
            final(self).ids() == old(self).ids().insert(span_id),
            (*old(self)) is Vec <==> (*final(self)) is Vec,
            (*old(self)) is HashSet <==> (*final(self)) is HashSet,
            *old(self) matches SpanCollector::Vec(v0) ==> (*final(self) matches SpanCollector::Vec(v1)
                && v1@ == v0@.push(span_id)),
    {
        match self {
            SpanCollector::Vec(v) => {
                let ghost v0 = v@;
                v.push(span_id);
                proof {
                    v0.lemma_push_to_set_commute(span_id);
                }
            },
            SpanCollector::HashSet(set) => {
                id_set_insert(set, span_id);
            },
            SpanCollector::Empty => {},
        }
    }

    /// The collected span ids, newest first.
    pub fn into_vec(self) -> (r: Vec<u64>)
        ensures
            r@.to_set() == self.ids(),
            strictly_descending(r@),
    {
        match self {
            SpanCollector::Vec(v) => sort_descending(v),
            SpanCollector::HashSet(set) => sort_descending(id_set_to_vec(&set)),
            SpanCollector::Empty => {
                let r: Vec<u64> = Vec::new();
                assert(r@.to_set() =~= Set::<u64>::empty());
                r
            },
        }
    }

    /// Keeps the ids that `other` holds too; tells whether none is left.
    pub fn intersect(&mut self, other: Self) -> (r: bool)
        requires
            (*old(self)) is HashSet,
            other is HashSet,
        ensures
            (*final(self)) is HashSet,
            final(self).ids() == old(self).ids().intersect(other.ids()),
            r == (final(self).ids() == Set::<u64>::empty()),
    {
        let other_set = match other {
            SpanCollector::HashSet(s) => s,
            _ => id_set_new(),
        };
        let mine = match self {
            SpanCollector::HashSet(s) => id_set_to_vec(s),
            _ => Vec::new(),
        };
        let ghost target = old(self).ids().intersect(id_set_contents(other_set));
        let mut kept = id_set_new();
        let mut any = false;
        let mut i: usize = 0;
        while i < mine.len()
            invariant
                i <= mine@.len(),
                mine@.to_set() == old(self).ids(),
                id_set_contents(kept) == mine@.subrange(0, i as int).to_set().intersect(
                    id_set_contents(other_set),
                ),
                any == (id_set_contents(kept) != Set::<u64>::empty()),
            decreases mine@.len() - i,
        {
            let x = mine[i];
            proof {
                mine@.subrange(0, i as int).lemma_push_to_set_commute(x);
                assert(mine@.subrange(0, i + 1) =~= mine@.subrange(0, i as int).push(x));
            }
            if id_set_contains(&other_set, x) {
                id_set_insert(&mut kept, x);
                any = true;
                assert(id_set_contents(kept).contains(x));
            }
            i = i + 1;
            assert(id_set_contents(kept) =~= mine@.subrange(0, i as int).to_set().intersect(
                id_set_contents(other_set),
            ));
        }
        assert(mine@.subrange(0, mine@.len() as int) =~= mine@);
        *self = SpanCollector::HashSet(kept);
        !any
    }
}

/// The value a predicate looks up, and whether matching keys must have that
/// value's length plus eight.
fn param_lookup(p: &TracingQuery) -> (r: (Vec<u8>, bool))
    ensures
        r.0@ == param_value(*p),
        r.1 == (param_exact_len(*p) != 0),
        r.1 ==> param_exact_len(*p) == r.0@.len() + 8,
{
    match p {
        TracingQuery::EventType(t) => (KeySerializer::new(2).write_u16(t.code()).finalize(), true),
        TracingQuery::QueueId(id) => (KeySerializer::new(8).write_u64(*id).finalize(), true),
        TracingQuery::Keywords(s) => {
            let b: &[u8] = s.as_str().as_bytes();
            assert(b@ == keyword_bytes(*s));
            if b.len() >= 2 && b[0] == 34u8 && b[b.len() - 1] == 34u8 {
                let mut inner: Vec<u8> = Vec::new();
                let mut i: usize = 1;
                while i < b.len() - 1
                    invariant
                        1 <= i <= b@.len() - 1,
                        b@.len() >= 2,
                        inner@ == b@.subrange(1, i as int),
                    decreases b@.len() - 1 - i,
                {
                    inner.push(b[i]);
                    i = i + 1;
                    assert(inner@ =~= b@.subrange(1, i as int));
                }
                (inner, true)
            } else {
                let k = KeySerializer::new(b.len()).write_bytes(b).finalize();
                assert(k@ =~= b@);
                (k, false)
            }
        },
    }
}

impl MemoryStore {
    /// The span ids that one predicate finds, gathered as `SpanCollector::new`
    /// shapes them for a query of `num_params` predicates.
    fn scan_param(&self, p: &TracingQuery, num_params: usize, from: u64, to: u64) -> (r: Result<
        SpanCollector,
        StoreError,
    >)
        requires
            self.wf(),
        ensures
            r matches Ok(c) ==> c.ids() == param_ids(self@, *p, from, to),
            r matches Ok(c) ==> (num_params == 1 <==> c is Vec) && (num_params != 1 <==> c is HashSet),
            r matches Err(e) ==> e == StoreError::CorruptKey && param_corrupt(self@, *p),
            r is Ok <==> !param_corrupt(self@, *p),
    {
        let (value, exact) = param_lookup(p);
        let ghost ex = param_exact_len(*p);
        let prefix = KeySerializer::new(2).write_u8(SUBSPACE_TELEMETRY).write_u8(TAG_INDEX).write_bytes(
            value.as_slice(),
        ).finalize();
        assert(prefix@ =~= index_prefix() + value@);
        let keys = self.keys_with_prefix(prefix.as_slice());
        let mut c = SpanCollector::new(num_params);
        let mut j: usize = 0;
        while j < keys.len()
            invariant
                j <= keys@.len(),
                prefix@ == index_prefix() + value@,
                value@ == param_value(*p),
                exact == (ex != 0),
                exact ==> ex == value@.len() + 8,
                ex == param_exact_len(*p),
                key_views(keys@).no_duplicates(),
                forall|k: Seq<u8>|
                    #[trigger] key_views(keys@).contains(k) <==> (self@.contains_key(k) && has_prefix(k, prefix@)),
                c.ids() == Set::new(
                    |s: u64|
                        exists|t: int|
                            0 <= t < j && key_hits(#[trigger] keys@[t]@, value@, ex) && keys@[t]@.len() >= 10
                                && key_span_id(keys@[t]@) == s && in_window(s, from, to),
                ),
                forall|t: int| 0 <= t < j && key_hits(#[trigger] keys@[t]@, value@, ex) ==> keys@[t]@.len() >= 10,
                (num_params == 1 <==> c is Vec) && (num_params != 1 <==> c is HashSet),
            decreases keys@.len() - j,
        {
            let k = &keys[j];
            assert(key_views(keys@)[j as int] == k@);
            assert(key_views(keys@).contains(k@));
            assert(has_prefix(k@, prefix@));
            assert(self@.contains_key(k@));
            let hit = !exact || (k.len() >= 10 && k.len() - 10 == value.len());
            assert(hit == key_hits(k@, value@, ex));
            let ghost c0 = c.ids();
            if hit {
                if k.len() < 10 {
                    assert(self@.contains_key(k@));
                    assert(key_hits(k@, param_value(*p), param_exact_len(*p)));
                    return Err(StoreError::CorruptKey);
                }
                let id = match crate::codec::deserialize_be_u64(k.as_slice(), k.len() - 8) {
                    Ok(id) => id,
                    Err(e) => return Err(e),
                };
                assert(id == key_span_id(k@));
                if (from == 0 || id >= from) && (to == 0 || id <= to) {
                    c.insert(id);
                }
            }
            j = j + 1;
            assert(c.ids() =~= Set::new(
                |s: u64|
                    exists|t: int|
                        0 <= t < j && key_hits(#[trigger] keys@[t]@, value@, ex) && keys@[t]@.len() >= 10
                            && key_span_id(keys@[t]@) == s && in_window(s, from, to),
            )) by {
                assert forall|s: u64| c.ids().contains(s) implies exists|t: int|
                        0 <= t < j && key_hits(#[trigger] keys@[t]@, value@, ex) && keys@[t]@.len() >= 10
                            && key_span_id(keys@[t]@) == s && in_window(s, from, to) by {
                    if !c0.contains(s) {
                        assert(key_hits(keys@[j - 1]@, value@, ex));
                    }
                }
            }
        }
        proof {
            assert(c.ids() =~= param_ids(self@, *p, from, to)) by {
                assert forall|s: u64| param_ids(self@, *p, from, to).contains(s) implies c.ids().contains(s) by {
                    let k = choose|k: Seq<u8>|
                        self@.contains_key(k) && #[trigger] key_hits(k, param_value(*p), param_exact_len(*p))
                            && k.len() >= 10 && key_span_id(k) == s && in_window(s, from, to);
                    assert(has_prefix(k, prefix@));
                    assert(key_views(keys@).contains(k));
                    let t = choose|t: int| 0 <= t < key_views(keys@).len() && key_views(keys@)[t] == k;
                    assert(keys@[t]@ == k);
                }
                assert forall|s: u64| c.ids().contains(s) implies param_ids(self@, *p, from, to).contains(s) by {
                    let t = choose|t: int|
                        0 <= t < keys@.len() && key_hits(#[trigger] keys@[t]@, value@, ex) && keys@[t]@.len() >= 10
                            && key_span_id(keys@[t]@) == s && in_window(s, from, to);
                    assert(key_views(keys@)[t] == keys@[t]@);
                    assert(key_views(keys@).contains(keys@[t]@));
                }
            }
            if param_corrupt(self@, *p) {
                let k = choose|k: Seq<u8>|
                    self@.contains_key(k) && #[trigger] key_hits(k, param_value(*p), param_exact_len(*p)) && k.len() < 10;
                assert(has_prefix(k, prefix@));
                assert(key_views(keys@).contains(k));
                let t = choose|t: int| 0 <= t < key_views(keys@).len() && key_views(keys@)[t] == k;
                assert(keys@[t]@ == k);
            }
        }
        Ok(c)
    }

    /// The events of span `span_id`; none when the span is not stored. Fails
    /// with `CorruptValue` exactly when the stored blob encodes no list of
    /// events.
    pub fn get_span(&self, span_id: u64) -> (r: Result<Vec<Event>, StoreError>)
        requires
            self.wf(),
        ensures
            !self@.contains_key(span_key(span_id)) ==> (r matches Ok(v) && v@.len() == 0),
            r matches Ok(v) ==> (v@.len() == 0 && !self@.contains_key(span_key(span_id))) || (
            self@.contains_key(span_key(span_id)) && enc_events(v@) == self@[span_key(span_id)]),
            r matches Err(e) ==> e == StoreError::CorruptValue && self@.contains_key(
                span_key(span_id),
            ),
            (exists|evs: Seq<Event>| enc_events(evs) == self@[span_key(span_id)]) ==> r is Ok,
    {
        let key = span_key_bytes(span_id);
        match self.get_value(key.as_slice()) {
            Some(bytes) => deserialize_events(bytes.as_slice()),
            None => Ok(Vec::new()),
        }
    }

    /// The stored blob of span `span_id`, as written.
    pub fn get_raw_span(&self, span_id: u64) -> (r: Result<Option<Vec<u8>>, StoreError>)
        requires
            self.wf(),
        ensures
            r matches Ok(o) && (o is Some <==> self@.contains_key(span_key(span_id))),
            r matches Ok(Some(b)) ==> b@ == self@[span_key(span_id)],
    {
        let key = span_key_bytes(span_id);
        Ok(self.get_value(key.as_slice()))
    }

    /// The span ids that satisfy every predicate, restricted to the window
    /// `[from_span_id, to_span_id]` (a zero bound is no bound), newest first,
    /// each once. Fails with `CorruptKey` only when an index key that a
    /// predicate matches is too short to hold a span id, and always when the
    /// first predicate matches such a key.
    pub fn query_spans(&self, params: &[TracingQuery], from_span_id: u64, to_span_id: u64) -> (r:
        Result<Vec<u64>, StoreError>)
        requires
            self.wf(),
        ensures
            r matches Ok(v) ==> v@.to_set() == query_ids(self@, params@, from_span_id, to_span_id)
                && strictly_descending(v@),
            params@.len() > 0 && param_corrupt(self@, params@[0]) ==> r is Err,
            r matches Err(e) ==> e == StoreError::CorruptKey && exists|i: int|
                0 <= i < params@.len() && #[trigger] param_corrupt(self@, params@[i]),
            (forall|i: int| 0 <= i < params@.len() ==> !#[trigger] param_corrupt(self@, params@[i]))
                ==> r is Ok,
    {
        let n = params.len();
        let ghost m = self@;
        let ghost from = from_span_id;
        let ghost to = to_span_id;
        let mut spans = SpanCollector::Empty;
        let mut p: usize = 0;
        while p < n
            invariant
                p <= n == params@.len(),
                m == self@,
                from == from_span_id,
                to == to_span_id,
                self.wf(),
                p == 0 ==> spans is Empty,
                p >= 1 ==> !param_corrupt(m, params@[0]),
                p >= 1 ==> spans.ids() == Set::new(
                    |s: u64| forall|i: int| 0 <= i < p ==> #[trigger] param_ids(m, params@[i], from, to).contains(s),
                ),
                p >= 1 ==> (n == 1 <==> spans is Vec) && (n != 1 <==> spans is HashSet),
            decreases n - p,
        {
            let res = self.scan_param(&params[p], n, from_span_id, to_span_id);
            let found = match res {
                Ok(c) => c,
                Err(e) => {
                    assert(param_corrupt(m, params@[p as int]));
                    return Err(e);
                },
            };
            let ghost before = spans.ids();
            if p == 0 {
                spans = found;
                assert forall|s: u64| spans.ids().contains(s) <==> (forall|i: int| 0 <= i < 1 ==> #[trigger] param_ids(m, params@[i], from, to).contains(s)) by {
                    if forall|i: int| 0 <= i < 1 ==> #[trigger] param_ids(m, params@[i], from, to).contains(s) {
                        assert(param_ids(m, params@[0], from, to).contains(s));
                    }
                }
                assert(spans.ids() =~= Set::new(
                    |s: u64| forall|i: int| 0 <= i < 1 ==> #[trigger] param_ids(m, params@[i], from, to).contains(s),
                ));
            } else {
                let none_left = spans.intersect(found);
                assert(spans.ids() =~= Set::new(
                    |s: u64| forall|i: int| 0 <= i < p + 1 ==> #[trigger] param_ids(m, params@[i], from, to).contains(s),
                )) by {
                    assert forall|s: u64| spans.ids().contains(s) <==> (forall|i: int| 0 <= i < p + 1 ==> #[trigger] param_ids(m, params@[i], from, to).contains(s)) by {
                        if spans.ids().contains(s) {
                            assert(before.contains(s));
                            assert forall|i: int| 0 <= i < p + 1 implies #[trigger] param_ids(m, params@[i], from, to).contains(s) by {
                                if i == p {
                                    assert(param_ids(m, params@[p as int], from, to).contains(s));
                                }
                            }
                        }
                        if forall|i: int| 0 <= i < p + 1 ==> #[trigger] param_ids(m, params@[i], from, to).contains(s) {
                            assert(param_ids(m, params@[p as int], from, to).contains(s));
                            assert(before.contains(s));
                        }
                    }
                }
                if none_left {
                    let r: Vec<u64> = Vec::new();
                    assert(query_ids(m, params@, from, to) =~= Set::<u64>::empty()) by {
                        assert forall|s: u64| !query_ids(m, params@, from, to).contains(s) by {
                            if query_ids(m, params@, from, to).contains(s) {
                                assert forall|i: int| 0 <= i < p + 1 implies #[trigger] param_ids(m, params@[i], from, to).contains(s) by {}
                                assert(spans.ids().contains(s));
                            }
                        }
                    }
                    assert(r@.to_set() =~= Set::<u64>::empty());
                    return Ok(r);
                }
            }
            p = p + 1;
        }
        let r = spans.into_vec();
        assert(query_ids(m, params@, from, to) =~= spans.ids()) by {
            if n == 0 {
                assert(query_ids(m, params@, from, to) =~= Set::<u64>::empty());
            }
        }
        Ok(r)
    }
}

/// The span reads, queries and purges that a telemetry store offers.
pub trait TracingStore {
    /// What the store holds: a value for each key.
    spec fn contents(&self) -> Map<Seq<u8>, Seq<u8>>;

    /// Whether the store is in a state its operations accept.
    spec fn ready(&self) -> bool;

    /// The events of a span; none when it is not stored.
    fn get_span(&self, span_id: u64) -> (r: Result<Vec<Event>, StoreError>)
        requires
            self.ready(),
        ensures
            !self.contents().contains_key(span_key(span_id)) ==> (r matches Ok(v) && v@.len() == 0),
            r matches Ok(v) ==> (v@.len() == 0 && !self.contents().contains_key(span_key(span_id)))
                || (self.contents().contains_key(span_key(span_id)) && enc_events(v@)
                == self.contents()[span_key(span_id)]),
            r matches Err(e) ==> e == StoreError::CorruptValue && self.contents().contains_key(
                span_key(span_id),
            ),
            (exists|evs: Seq<Event>| enc_events(evs) == self.contents()[span_key(span_id)]) ==> r is Ok,
    ;

    /// The stored blob of a span, as written.
    fn get_raw_span(&self, span_id: u64) -> (r: Result<Option<Vec<u8>>, StoreError>)
        requires
            self.ready(),
        ensures
            r matches Ok(o) && (o is Some <==> self.contents().contains_key(span_key(span_id))),
            r matches Ok(Some(b)) ==> b@ == self.contents()[span_key(span_id)],
    ;

    /// The span ids that satisfy every predicate within the window, newest
    /// first.
    fn query_spans(&self, params: &[TracingQuery], from_span_id: u64, to_span_id: u64) -> (r: Result<
        Vec<u64>,
        StoreError,
    >)
        requires
            self.ready(),
        ensures
            r matches Ok(v) ==> v@.to_set() == query_ids(self.contents(), params@, from_span_id, to_span_id)
                && strictly_descending(v@),
            params@.len() > 0 && param_corrupt(self.contents(), params@[0]) ==> r is Err,
            r matches Err(e) ==> e == StoreError::CorruptKey && exists|i: int|
                0 <= i < params@.len() && #[trigger] param_corrupt(self.contents(), params@[i]),
            (forall|i: int| 0 <= i < params@.len() ==> !#[trigger] param_corrupt(self.contents(), params@[i]))
                ==> r is Ok,
    ;

    /// Deletes every span older than `period_ms` at time `now_ms`.
    fn purge_spans(&mut self, now_ms: u64, period_ms: u64) -> (r: Result<(), StoreError>)
        requires
            old(self).ready(),
        ensures
            final(self).ready(),
            spec_snowflake_from_duration(now_ms, period_ms) is None ==> r == Err::<(), StoreError>(
                StoreError::UnexpectedError,
            ) && final(self).contents() == old(self).contents(),
            spec_snowflake_from_duration(now_ms, period_ms) matches Some(cutoff) ==> ((r is Ok
                <==> !has_short_index_key(old(self).contents())) && (r is Ok ==> final(self).contents()
                == old(self).contents().remove_keys(purged_keys(cutoff))) && (r is Err ==> r
                == Err::<(), StoreError>(StoreError::CorruptKey) && final(self).contents() == old(
                self,
            ).contents().remove_keys(old_span_keys(cutoff)))),
    ;
}

impl TracingStore for MemoryStore {
    open spec fn contents(&self) -> Map<Seq<u8>, Seq<u8>> {
        self@
    }

    open spec fn ready(&self) -> bool {
        self.wf()
    }

    fn get_span(&self, span_id: u64) -> (r: Result<Vec<Event>, StoreError>) {
        MemoryStore::get_span(self, span_id)
    }

    fn get_raw_span(&self, span_id: u64) -> (r: Result<Option<Vec<u8>>, StoreError>) {
        MemoryStore::get_raw_span(self, span_id)
    }

    fn query_spans(&self, params: &[TracingQuery], from_span_id: u64, to_span_id: u64) -> (r: Result<
        Vec<u64>,
        StoreError,
    >) {
        let r = MemoryStore::query_spans(self, params, from_span_id, to_span_id);
        proof {
            if r is Err {
                let i = choose|i: int| 0 <= i < params@.len() && #[trigger] param_corrupt(self@, params@[i]);
                assert(param_corrupt(self.contents(), params@[i]));
            }
            if forall|i: int| 0 <= i < params@.len() ==> !#[trigger] param_corrupt(self.contents(), params@[i]) {
                assert forall|i: int| 0 <= i < params@.len() implies !#[trigger] param_corrupt(self@, params@[i]) by {
                    assert(!param_corrupt(self.contents(), params@[i]));
                }
            }
        }
        r
    }

    fn purge_spans(&mut self, now_ms: u64, period_ms: u64) -> (r: Result<(), StoreError>) {
        MemoryStore::purge_spans(self, now_ms, period_ms)
    }
}

} // verus!
