use vstd::prelude::*;

use ahash::AHashSet;

use crate::codec::{be16, be64, KeySerializer};
use crate::event::{spec_is_span_end, type_code, Event, Key, Value};
use crate::hashed::{
    id_set_contents, id_set_insert, id_set_new, id_set_to_vec, text_set_contents, text_set_insert,
    text_set_new, text_set_to_vec, open_span_contents, open_spans_insert, open_spans_new,
    open_spans_remove, OpenSpan, OpenSpans,
};
use crate::kv::{apply_ops, key_views, lemma_apply_push, BatchBuilder, BatchOp};
use crate::serial::{enc_events, serialize_events};
use crate::text::{ipv4_text, ipv4_to_text, ipv6_text, ipv6_to_text};

verus! {

/// The subspace that holds telemetry.
pub const SUBSPACE_TELEMETRY: u8 = 121;
/// The tag of span blob keys within the telemetry subspace.
pub const TAG_SPAN: u8 = 0;
/// The tag of index keys within the telemetry subspace.
pub const TAG_INDEX: u8 = 1;
/// The most events held for one open span besides its start event.
pub const MAX_EVENTS: usize = 2048;

/// The key of the blob of span `s`.
pub open spec fn span_key(s: u64) -> Seq<u8> {
    seq![SUBSPACE_TELEMETRY, TAG_SPAN] + be64(s)
}

/// The prefix of every index key.
pub open spec fn index_prefix() -> Seq<u8> {
    seq![SUBSPACE_TELEMETRY, TAG_INDEX]
}

/// The key that indexes span `s` under value `v`.
pub open spec fn index_key(s: u64, v: Seq<u8>) -> Seq<u8> {
    index_prefix() + v + be64(s)
}

pub fn span_key_bytes(s: u64) -> (r: Vec<u8>)
    ensures
        r@ == span_key(s),
{
    let k = KeySerializer::new(10).write_u8(SUBSPACE_TELEMETRY).write_u8(TAG_SPAN).write_u64(s);
    let r = k.finalize();
    assert(r@ =~= span_key(s));
    r
}

pub fn index_key_bytes(s: u64, v: &[u8]) -> (r: Vec<u8>)
    ensures
        r@ == index_key(s, v@),
{
    let k = KeySerializer::new(10).write_u8(SUBSPACE_TELEMETRY).write_u8(
        TAG_INDEX,
    ).write_bytes(v).write_u64(s);
    let r = k.finalize();
    assert(r@ =~= index_key(s, v@));
    r
}

/// The queue id that an attribute carries, if any.
pub open spec fn attr_queue_id(a: (Key, Value)) -> Option<u64> {
    match (a.0, a.1) {
        (Key::QueueId, Value::UInt(q)) => Some(q),
        _ => None,
    }
}

/// The address-like values that an attribute contributes to the index.
pub open spec fn attr_texts(a: (Key, Value)) -> Set<Seq<u8>> {
    match (a.0, a.1) {
        (Key::From, Value::Text(b)) => set![b@],
        (Key::To, Value::Text(b)) => set![b@],
        (Key::Domain, Value::Text(b)) => set![b@],
        (Key::Hostname, Value::Text(b)) => set![b@],
        (Key::To, Value::Array(items)) => key_views(items@).to_set(),
        (Key::RemoteIp, Value::Ipv4(x)) => set![ipv4_text(x)],
        (Key::RemoteIp, Value::Ipv6(x)) => set![ipv6_text(x)],
        _ => Set::empty(),
    }
}

/// The queue ids carried by any attribute of any of the events.
pub open spec fn span_queue_ids(evs: Seq<Event>) -> Set<u64> {
    Set::new(
        |q: u64|
            exists|i: int, j: int|
                0 <= i < evs.len() && 0 <= j < evs[i].keys@.len() && attr_queue_id(
                    #[trigger] evs[i].keys@[j],
                ) == Some(q),
    )
}

/// The address-like values contributed by any attribute of any of the events.
pub open spec fn span_texts(evs: Seq<Event>) -> Set<Seq<u8>> {
    Set::new(
        |v: Seq<u8>|
            exists|i: int, j: int|
                0 <= i < evs.len() && 0 <= j < evs[i].keys@.len() && attr_texts(
                    #[trigger] evs[i].keys@[j],
                ).contains(v),
    )
}

/// The index keys written for span `s` whose events are `evs`, the first of
/// which is its start event.
pub open spec fn span_index_keys(s: u64, evs: Seq<Event>) -> Set<Seq<u8>> {
    Set::new(
        |k: Seq<u8>|
            k == index_key(s, be16(type_code(evs[0].typ))) || (exists|q: u64|
                span_queue_ids(evs).contains(q) && k == #[trigger] index_key(s, be64(q))) || (
            exists|v: Seq<u8>| span_texts(evs).contains(v) && k == #[trigger] index_key(s, v)),
    )
}

/// Each key of `keys` with an empty value.
pub open spec fn empty_values(keys: Set<Seq<u8>>) -> Map<Seq<u8>, Seq<u8>> {
    Map::new(|k: Seq<u8>| keys.contains(k), |k: Seq<u8>| Seq::<u8>::empty())
}

/// What committing span `s` with events `evs` leaves in a store that held
/// `m`: the blob and its index keys when a queue id was seen, else nothing.
pub open spec fn commit_effect(m: Map<Seq<u8>, Seq<u8>>, s: u64, evs: Seq<Event>) -> Map<
    Seq<u8>,
    Seq<u8>,
> {
    if span_queue_ids(evs) == Set::<u64>::empty() {
        m
    } else {
        m.insert(span_key(s), enc_events(evs)).union_prefer_right(
            empty_values(span_index_keys(s, evs)),
        )
    }
}

/// The queue id of an attribute, as a set of at most one element.
pub open spec fn attr_queue_ids(a: (Key, Value)) -> Set<u64> {
    match attr_queue_id(a) {
        Some(q) => set![q],
        None => Set::empty(),
    }
}

/// The queue ids carried by attributes `0..n` of `keys`.
pub open spec fn attrs_queue_ids(keys: Seq<(Key, Value)>, n: int) -> Set<u64> {
    Set::new(|q: u64| exists|j: int| 0 <= j < n && #[trigger] attr_queue_ids(keys[j]).contains(q))
}

/// The address-like values contributed by attributes `0..n` of `keys`.
pub open spec fn attrs_texts(keys: Seq<(Key, Value)>, n: int) -> Set<Seq<u8>> {
    Set::new(|v: Seq<u8>| exists|j: int| 0 <= j < n && #[trigger] attr_texts(keys[j]).contains(v))
}

fn collect_attr(a: &(Key, Value), qs: &mut AHashSet<u64>, vs: &mut AHashSet<Vec<u8>>)
    ensures
        id_set_contents(*final(qs)) == id_set_contents(*old(qs)).union(attr_queue_ids(*a)),
        text_set_contents(*final(vs)) == text_set_contents(*old(vs)).union(attr_texts(*a)),
{
    let ghost q0 = id_set_contents(*qs);
    let ghost v0 = text_set_contents(*vs);
    match (&a.0, &a.1) {
        (Key::QueueId, Value::UInt(q)) => {
            id_set_insert(qs, *q);
            assert(q0.insert(*q) =~= q0.union(attr_queue_ids(*a)));
            assert(v0 =~= v0.union(attr_texts(*a)));
        },
        (Key::From, Value::Text(b)) | (Key::To, Value::Text(b)) | (Key::Domain, Value::Text(b)) | (
            Key::Hostname,
            Value::Text(b),
        ) => {
            let c = b.clone();
            assert(c@ == b@);
            text_set_insert(vs, c);
            assert(v0.insert(b@) =~= v0.union(attr_texts(*a)));
            assert(q0 =~= q0.union(attr_queue_ids(*a)));
        },
        (Key::To, Value::Array(items)) => {
            let mut i: usize = 0;
            while i < items.len()
                invariant
                    i <= items@.len(),
                    text_set_contents(*vs) == v0.union(key_views(items@.subrange(0, i as int)).to_set()),
                    id_set_contents(*qs) == q0,
                decreases items@.len() - i,
            {
                let c = items[i].clone();
                assert(c@ == items@[i as int]@);
                text_set_insert(vs, c);
                i = i + 1;
                assert(key_views(items@.subrange(0, i as int)) =~= key_views(items@.subrange(0, i - 1)).push(c@));
                proof {
                    key_views(items@.subrange(0, i - 1)).lemma_push_to_set_commute(c@);
                }
                assert(v0.union(key_views(items@.subrange(0, i as int)).to_set()) =~= v0.union(
                    key_views(items@.subrange(0, i - 1)).to_set(),
                ).insert(c@));
            }
            assert(items@.subrange(0, items@.len() as int) =~= items@);
            assert(q0 =~= q0.union(attr_queue_ids(*a)));
        },
        (Key::RemoteIp, Value::Ipv4(x)) => {
            text_set_insert(vs, ipv4_to_text(*x));
            assert(v0.insert(ipv4_text(*x)) =~= v0.union(attr_texts(*a)));
            assert(q0 =~= q0.union(attr_queue_ids(*a)));
        },
        (Key::RemoteIp, Value::Ipv6(x)) => {
            text_set_insert(vs, ipv6_to_text(*x));
            assert(v0.insert(ipv6_text(*x)) =~= v0.union(attr_texts(*a)));
            assert(q0 =~= q0.union(attr_queue_ids(*a)));
        },
        _ => {
            assert(attr_texts(*a) =~= Set::empty());
            assert(attr_queue_ids(*a) =~= Set::empty());
            assert(q0 =~= q0.union(attr_queue_ids(*a)));
            assert(v0 =~= v0.union(attr_texts(*a)));
        },
    }
}

fn collect_event(e: &Event, qs: &mut AHashSet<u64>, vs: &mut AHashSet<Vec<u8>>)
    ensures
        id_set_contents(*final(qs)) == id_set_contents(*old(qs)).union(
            attrs_queue_ids(e.keys@, e.keys@.len() as int),
        ),
        text_set_contents(*final(vs)) == text_set_contents(*old(vs)).union(
            attrs_texts(e.keys@, e.keys@.len() as int),
        ),
{
    let ghost q0 = id_set_contents(*qs);
    let ghost v0 = text_set_contents(*vs);
    let mut j: usize = 0;
    assert(attrs_queue_ids(e.keys@, 0) =~= Set::empty());
    assert(attrs_texts(e.keys@, 0) =~= Set::empty());
    while j < e.keys.len()
        invariant
            j <= e.keys@.len(),
            id_set_contents(*qs) == q0.union(attrs_queue_ids(e.keys@, j as int)),
            text_set_contents(*vs) == v0.union(attrs_texts(e.keys@, j as int)),
        decreases e.keys@.len() - j,
    {
        collect_attr(&e.keys[j], qs, vs);
        assert(attrs_queue_ids(e.keys@, j + 1) =~= attrs_queue_ids(e.keys@, j as int).union(
            attr_queue_ids(e.keys@[j as int]),
        ));
        assert(attrs_texts(e.keys@, j + 1) =~= attrs_texts(e.keys@, j as int).union(
            attr_texts(e.keys@[j as int]),
        ));
        j = j + 1;
    }
}

/// Events `0..n` of `evs` taken together.
spec fn events_queue_ids(evs: Seq<Event>, n: int) -> Set<u64> {
    Set::new(
        |q: u64|
            exists|i: int|
                0 <= i < n && #[trigger] attrs_queue_ids(evs[i].keys@, evs[i].keys@.len() as int).contains(q),
    )
}

spec fn events_texts(evs: Seq<Event>, n: int) -> Set<Seq<u8>> {
    Set::new(
        |v: Seq<u8>|
            exists|i: int|
                0 <= i < n && #[trigger] attrs_texts(evs[i].keys@, evs[i].keys@.len() as int).contains(v),
    )
}

proof fn lemma_events_sets(evs: Seq<Event>)
    ensures
        events_queue_ids(evs, evs.len() as int) == span_queue_ids(evs),
        events_texts(evs, evs.len() as int) == span_texts(evs),
{
    assert forall|q: u64| events_queue_ids(evs, evs.len() as int).contains(q) <==> span_queue_ids(
        evs,
    ).contains(q) by {
        if span_queue_ids(evs).contains(q) {
            let (i, j) = choose|i: int, j: int|
                0 <= i < evs.len() && 0 <= j < evs[i].keys@.len() && attr_queue_id(
                    #[trigger] evs[i].keys@[j],
                ) == Some(q);
            assert(attr_queue_ids(evs[i].keys@[j]).contains(q));
            assert(attrs_queue_ids(evs[i].keys@, evs[i].keys@.len() as int).contains(q));
        }
        if events_queue_ids(evs, evs.len() as int).contains(q) {
            let i = choose|i: int|
                0 <= i < evs.len() && #[trigger] attrs_queue_ids(evs[i].keys@, evs[i].keys@.len() as int).contains(q);
            let j = choose|j: int|
                0 <= j < evs[i].keys@.len() && #[trigger] attr_queue_ids(evs[i].keys@[j]).contains(q);
            assert(attr_queue_id(evs[i].keys@[j]) == Some(q));
        }
    }
    assert forall|v: Seq<u8>| events_texts(evs, evs.len() as int).contains(v) <==> span_texts(
        evs,
    ).contains(v) by {
        if span_texts(evs).contains(v) {
            let (i, j) = choose|i: int, j: int|
                0 <= i < evs.len() && 0 <= j < evs[i].keys@.len() && attr_texts(
                    #[trigger] evs[i].keys@[j],
                ).contains(v);
            assert(attrs_texts(evs[i].keys@, evs[i].keys@.len() as int).contains(v));
        }
        if events_texts(evs, evs.len() as int).contains(v) {
            let i = choose|i: int|
                0 <= i < evs.len() && #[trigger] attrs_texts(evs[i].keys@, evs[i].keys@.len() as int).contains(v);
            let j = choose|j: int|
                0 <= j < evs[i].keys@.len() && #[trigger] attr_texts(evs[i].keys@[j]).contains(v);
        }
    }
    assert(events_queue_ids(evs, evs.len() as int) =~= span_queue_ids(evs));
    assert(events_texts(evs, evs.len() as int) =~= span_texts(evs));
}

/// Puts `key` with an empty value into the batch, keeping the invariant that
/// the batch adds `base` and then empty values under `keys`.
fn put_index(
    batch: &mut BatchBuilder,
    key: Vec<u8>,
    Ghost(before): Ghost<Seq<BatchOp>>,
    Ghost(head): Ghost<Seq<u8>>,
    Ghost(blob): Ghost<Seq<u8>>,
    Ghost(keys): Ghost<Set<Seq<u8>>>,
)
    requires
        forall|m: Map<Seq<u8>, Seq<u8>>|
            #[trigger] apply_ops(m, old(batch).ops@) == apply_ops(m, before).insert(head, blob).union_prefer_right(
                empty_values(keys),
            ),
    ensures
        forall|m: Map<Seq<u8>, Seq<u8>>|
            #[trigger] apply_ops(m, final(batch).ops@) == apply_ops(m, before).insert(head, blob).union_prefer_right(
                empty_values(keys.insert(key@)),
            ),
{
    let ghost old_ops = batch.ops@;
    let ghost k = key@;
    batch.set(key, Vec::new());
    assert forall|m: Map<Seq<u8>, Seq<u8>>| #[trigger] apply_ops(m, batch.ops@) == apply_ops(m, before).insert(head, blob).union_prefer_right(
        empty_values(keys.insert(k)),
    ) by {
        lemma_apply_push(m, old_ops, batch.ops@.last());
        assert(batch.ops@ == old_ops.push(batch.ops@.last()));
        assert(apply_ops(m, old_ops) == apply_ops(m, before).insert(head, blob).union_prefer_right(
            empty_values(keys),
        ));
        assert(apply_ops(m, before).insert(head, blob).union_prefer_right(empty_values(keys)).insert(
            k,
            Seq::empty(),
        ) =~= apply_ops(m, before).insert(head, blob).union_prefer_right(
            empty_values(keys.insert(k)),
        ));
    }
}

/// The events of a closed span in the order they are stored: the start
/// event, the buffered events, the end event.
pub open spec fn closed_span_events(start: Event, body: Seq<Event>, end: Event) -> Seq<Event> {
    seq![start] + body + seq![end]
}

/// Appends to `batch` the writes that commit a closed span: nothing when its
/// events carry no queue id, else its blob and one index key per indexed
/// value.
pub fn commit_span(span_id: u64, open: OpenSpan, end: Event, batch: &mut BatchBuilder)
    ensures
        forall|m: Map<Seq<u8>, Seq<u8>>|
            #[trigger] apply_ops(m, final(batch).ops@) == commit_effect(
                apply_ops(m, old(batch).ops@),
                span_id,
                closed_span_events(open.start, open.body@, end),
            ),
{
    let ghost evs = closed_span_events(open.start, open.body@, end);
    let ghost before = batch.ops@;
    let mut all: Vec<Event> = Vec::new();
    all.push(open.start);
    let mut body = open.body;
    all.append(&mut body);
    all.push(end);
    assert(all@ =~= evs);

    let mut qs = id_set_new();
    let mut vs = text_set_new();
    let mut i: usize = 0;
    assert(events_queue_ids(evs, 0) =~= Set::empty());
    assert(events_texts(evs, 0) =~= Set::empty());
    while i < all.len()
        invariant
            all@ == evs,
            i <= all@.len(),
            id_set_contents(qs) == events_queue_ids(evs, i as int),
            text_set_contents(vs) == events_texts(evs, i as int),
        decreases all@.len() - i,
    {
        collect_event(&all[i], &mut qs, &mut vs);
        assert(events_queue_ids(evs, i + 1) =~= events_queue_ids(evs, i as int).union(
            attrs_queue_ids(evs[i as int].keys@, evs[i as int].keys@.len() as int),
        ));
        assert(events_texts(evs, i + 1) =~= events_texts(evs, i as int).union(
            attrs_texts(evs[i as int].keys@, evs[i as int].keys@.len() as int),
        ));
        i = i + 1;
    }
    proof {
        lemma_events_sets(evs);
    }
    let queue_ids = id_set_to_vec(&qs);
    if queue_ids.len() == 0 {
        assert(span_queue_ids(evs) =~= Set::<u64>::empty());
        assert forall|m: Map<Seq<u8>, Seq<u8>>| #[trigger] apply_ops(m, batch.ops@) == commit_effect(
            apply_ops(m, before),
            span_id,
            evs,
        ) by {}
        return;
    }
    assert(span_queue_ids(evs).contains(queue_ids@[0]));
    let values = text_set_to_vec(&vs);

    let blob = serialize_events(all.as_slice());
    let ghost head = span_key(span_id);
    let ghost blob_v = blob@;
    batch.set(span_key_bytes(span_id), blob);
    assert forall|m: Map<Seq<u8>, Seq<u8>>| #[trigger] apply_ops(m, batch.ops@) == apply_ops(m, before).insert(head, blob_v).union_prefer_right(
        empty_values(Set::empty()),
    ) by {
        lemma_apply_push(m, before, batch.ops@.last());
        assert(batch.ops@ == before.push(batch.ops@.last()));
        assert(apply_ops(m, before).insert(head, blob_v) =~= apply_ops(m, before).insert(head, blob_v).union_prefer_right(
            empty_values(Set::empty()),
        ));
    }
    let code = all[0].typ.code();
    let type_value = KeySerializer::new(2).write_u16(code).finalize();
    let ghost type_key = index_key(span_id, be16(type_code(evs[0].typ)));
    put_index(batch, index_key_bytes(span_id, type_value.as_slice()), Ghost(before), Ghost(head), Ghost(blob_v), Ghost(Set::empty()));
    let ghost mut keys: Set<Seq<u8>> = Set::empty().insert(type_key);

    let mut a: usize = 0;
    while a < queue_ids.len()
        invariant
            a <= queue_ids@.len(),
            forall|m: Map<Seq<u8>, Seq<u8>>|
                #[trigger] apply_ops(m, batch.ops@) == apply_ops(m, before).insert(head, blob_v).union_prefer_right(
                    empty_values(keys),
                ),
            keys == Set::empty().insert(type_key).union(
                Set::new(|k: Seq<u8>| exists|b: int| 0 <= b < a && k == #[trigger] index_key(span_id, be64(queue_ids@[b]))),
            ),
        decreases queue_ids@.len() - a,
    {
        let q = queue_ids[a];
        let qv = KeySerializer::new(8).write_u64(q).finalize();
        let ghost k = index_key(span_id, be64(q));
        put_index(batch, index_key_bytes(span_id, qv.as_slice()), Ghost(before), Ghost(head), Ghost(blob_v), Ghost(keys));
        proof {
            keys = keys.insert(k);
        }
        a = a + 1;
        assert(keys =~= Set::empty().insert(type_key).union(
            Set::new(|k: Seq<u8>| exists|b: int| 0 <= b < a && k == #[trigger] index_key(span_id, be64(queue_ids@[b]))),
        )) by {
            assert(index_key(span_id, be64(queue_ids@[a - 1])) == k);
        }
    }
    let ghost keys_q = keys;
    let mut c: usize = 0;
    while c < values.len()
        invariant
            c <= values@.len(),
            forall|m: Map<Seq<u8>, Seq<u8>>|
                #[trigger] apply_ops(m, batch.ops@) == apply_ops(m, before).insert(head, blob_v).union_prefer_right(
                    empty_values(keys),
                ),
            keys == keys_q.union(
                Set::new(|k: Seq<u8>| exists|b: int| 0 <= b < c && k == #[trigger] index_key(span_id, values@[b]@)),
            ),
        decreases values@.len() - c,
    {
        let ghost k = index_key(span_id, values@[c as int]@);
        put_index(batch, index_key_bytes(span_id, values[c].as_slice()), Ghost(before), Ghost(head), Ghost(blob_v), Ghost(keys));
        proof {
            keys = keys.insert(k);
        }
        c = c + 1;
        assert(keys =~= keys_q.union(
            Set::new(|k: Seq<u8>| exists|b: int| 0 <= b < c && k == #[trigger] index_key(span_id, values@[b]@)),
        )) by {
            assert(index_key(span_id, values@[c - 1]@) == k);
        }
    }
    assert(keys =~= span_index_keys(span_id, evs)) by {
        assert forall|k: Seq<u8>| keys.contains(k) <==> span_index_keys(span_id, evs).contains(k) by {
            if keys.contains(k) && k != type_key {
                if keys_q.contains(k) {
                    let b = choose|b: int| 0 <= b < queue_ids@.len() && k == #[trigger] index_key(span_id, be64(queue_ids@[b]));
                    assert(queue_ids@.to_set().contains(queue_ids@[b]));
                } else {
                    let b = choose|b: int| 0 <= b < values@.len() && k == #[trigger] index_key(span_id, values@[b]@);
                    assert(key_views(values@)[b] == values@[b]@);
                    assert(key_views(values@).to_set().contains(values@[b]@));
                }
            }
            if span_index_keys(span_id, evs).contains(k) && k != type_key {
                if exists|q: u64| span_queue_ids(evs).contains(q) && k == #[trigger] index_key(span_id, be64(q)) {
                    let q = choose|q: u64| span_queue_ids(evs).contains(q) && k == #[trigger] index_key(span_id, be64(q));
                    assert(queue_ids@.to_set().contains(q));
                    let b = choose|b: int| 0 <= b < queue_ids@.len() && queue_ids@[b] == q;
                    assert(k == index_key(span_id, be64(queue_ids@[b])));
                } else {
                    let v = choose|v: Seq<u8>| span_texts(evs).contains(v) && k == #[trigger] index_key(span_id, v);
                    assert(key_views(values@).to_set().contains(v));
                    let b = choose|b: int| 0 <= b < key_views(values@).len() && key_views(values@)[b] == v;
                    assert(k == index_key(span_id, values@[b]@));
                }
            }
        }
    }
    assert(type_value@ =~= be16(type_code(evs[0].typ)));
}

/// Groups incoming events into spans and turns each closed span into writes.
pub struct SpanAggregator {
    pub open_spans: OpenSpans,
}

impl SpanAggregator {
    /// The open spans, by span id.
    pub open spec fn spans(&self) -> Map<u64, OpenSpan> {
        open_span_contents(self.open_spans)
    }

    pub fn new() -> (r: Self)
        ensures
            r.spans().dom() == Set::<u64>::empty(),
    {
        SpanAggregator { open_spans: open_spans_new() }
    }

    /// Takes one event. An event without a span id is ignored. The first
    /// event of a span id opens the span and is its start event; later ones
    /// are buffered, up to `MAX_EVENTS`, beyond which they are dropped. A
    /// span-end event closes its span and appends the span's commit to
    /// `batch`.
    pub fn process(&mut self, event: Event, batch: &mut BatchBuilder)
        ensures
            event.span_id is None ==> final(self).spans() == old(self).spans()
                && final(batch).ops@ == old(batch).ops@,
            event.span_id is Some && !spec_is_span_end(event.typ) ==> {
                let id = event.span_id->Some_0;
                let before = old(self).spans();
                let after = final(self).spans();
                &&& final(batch).ops@ == old(batch).ops@
                &&& after.remove(id) == before.remove(id)
                &&& after.contains_key(id)
                &&& before.contains_key(id) ==> after[id].start == before[id].start
                    && after[id].body@ == if before[id].body@.len() < MAX_EVENTS {
                    before[id].body@.push(event)
                } else {
                    before[id].body@
                }
                &&& !before.contains_key(id) ==> after[id].start == event && after[id].body@.len()
                    == 0
            },
            event.span_id is Some && spec_is_span_end(event.typ) ==> {
                let id = event.span_id->Some_0;
                let before = old(self).spans();
                &&& final(self).spans() == before.remove(id)
                &&& before.contains_key(id) ==> forall|m: Map<Seq<u8>, Seq<u8>>|
                    #[trigger] apply_ops(m, final(batch).ops@) == commit_effect(
                        apply_ops(m, old(batch).ops@),
                        id,
                        closed_span_events(before[id].start, before[id].body@, event),
                    )
                &&& !before.contains_key(id) ==> final(batch).ops@ == old(batch).ops@
            },
    {
        let id = match event.span_id {
            Some(id) => id,
            None => return ,
        };
        if !event.typ.is_span_end() {
            match open_spans_remove(&mut self.open_spans, id) {
                Some(open) => {
                    let mut body = open.body;
                    if body.len() < MAX_EVENTS {
                        body.push(event);
                    }
                    open_spans_insert(&mut self.open_spans, id, OpenSpan { start: open.start, body });
                },
                None => {
                    open_spans_insert(
                        &mut self.open_spans,
                        id,
                        OpenSpan { start: event, body: Vec::new() },
                    );
                },
            }
            assert(self.spans().remove(id) =~= old(self).spans().remove(id));
        } else {
            match open_spans_remove(&mut self.open_spans, id) {
                Some(open) => commit_span(id, open, event, batch),
                None => {},
            }
        }
    }
}

} // verus!
