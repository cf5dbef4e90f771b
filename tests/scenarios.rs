use span_store::event::{
    Event, EventGroup, EventType, Key, StoreTracer, Value, INGEST_HAM, INGEST_IMAP_APPEND,
    KIND_RAW_INPUT, KIND_SPAN_END, KIND_SPAN_START,
};
use span_store::kv::{BatchBuilder, MemoryStore};
use span_store::codec::StoreError;
use span_store::query::{TracingQuery, TracingStore};
use span_store::serial::{deserialize_events, serialize_events};
use span_store::tracer::{SpanAggregator, MAX_EVENTS};

fn smtp(kind: u8) -> EventType {
    EventType::new(EventGroup::Smtp, kind)
}

fn event(kind: u8, span: u64, keys: Vec<(Key, Value)>) -> Event {
    Event { typ: smtp(kind), span_id: Some(span), keys }
}

fn text(s: &str) -> Value {
    Value::Text(s.as_bytes().to_vec())
}

/// Feeds events to a fresh aggregator and writes its batch to the store.
fn ingest(store: &mut MemoryStore, events: Vec<Event>) {
    let mut agg = SpanAggregator::new();
    let mut batch = BatchBuilder::new();
    for e in events {
        agg.process(e, &mut batch);
    }
    if !batch.is_empty() {
        store.write(batch);
    }
}

fn span_with(span: u64, keys: Vec<(Key, Value)>) -> Vec<Event> {
    vec![event(KIND_SPAN_START, span, vec![]), event(4, span, keys), event(KIND_SPAN_END, span, vec![])]
}

fn q(store: &MemoryStore, params: &[TracingQuery]) -> Vec<u64> {
    store.query_spans(params, 0, 0).unwrap()
}

#[test]
fn single_span_is_indexed_and_read_back() {
    let mut store = MemoryStore::new();
    let events = span_with(5, vec![(Key::QueueId, Value::UInt(42)), (Key::From, text("a@x"))]);
    let expected = serialize_events(&events);
    ingest(&mut store, events);
    assert_eq!(q(&store, &[TracingQuery::QueueId(42)]), vec![5]);
    assert_eq!(q(&store, &[TracingQuery::Keywords("a@x".to_string())]), vec![5]);
    let got = store.get_span(5).unwrap();
    assert_eq!(got.len(), 3);
    assert_eq!(got[0].typ, smtp(KIND_SPAN_START));
    assert_eq!(got[2].typ, smtp(KIND_SPAN_END));
    assert_eq!(serialize_events(&got), expected);
}

#[test]
fn two_spans_same_queue_newest_first() {
    let mut store = MemoryStore::new();
    let mut events = span_with(10, vec![(Key::QueueId, Value::UInt(7))]);
    events.extend(span_with(11, vec![(Key::QueueId, Value::UInt(7))]));
    ingest(&mut store, events);
    assert_eq!(q(&store, &[TracingQuery::QueueId(7)]), vec![11, 10]);
}

#[test]
fn predicates_intersect() {
    let mut store = MemoryStore::new();
    let mut events = span_with(20, vec![(Key::QueueId, Value::UInt(7)), (Key::From, text("a@x"))]);
    events.extend(span_with(21, vec![(Key::QueueId, Value::UInt(7)), (Key::From, text("b@y"))]));
    ingest(&mut store, events);
    let hit = [TracingQuery::QueueId(7), TracingQuery::Keywords("a@x".to_string())];
    assert_eq!(q(&store, &hit), vec![20]);
    let miss = [TracingQuery::QueueId(7), TracingQuery::Keywords("c@z".to_string())];
    assert_eq!(q(&store, &miss), Vec::<u64>::new());
    let reversed = [TracingQuery::Keywords("a@x".to_string()), TracingQuery::QueueId(7)];
    assert_eq!(q(&store, &reversed), q(&store, &hit));
}

#[test]
fn buffer_is_capped() {
    let mut store = MemoryStore::new();
    let mut events = vec![event(KIND_SPAN_START, 30, vec![(Key::QueueId, Value::UInt(1))])];
    for i in 0..3000u64 {
        events.push(event(4, 30, vec![(Key::Size, Value::UInt(i))]));
    }
    events.push(event(KIND_SPAN_END, 30, vec![]));
    ingest(&mut store, events);
    let got = store.get_span(30).unwrap();
    assert_eq!(MAX_EVENTS, 2048);
    assert_eq!(got.len(), 2048 + 2);
}

#[test]
fn purge_removes_older_spans() {
    let mut store = MemoryStore::new();
    let mut events = Vec::new();
    for s in [100u64, 200, 300] {
        events.extend(span_with(s, vec![(Key::QueueId, Value::UInt(9))]));
    }
    ingest(&mut store, events);
    assert_eq!(store.purge_spans_before(250), Ok(()));
    assert_eq!(store.get_span(100).unwrap().len(), 0);
    assert_eq!(store.get_span(200).unwrap().len(), 0);
    assert_eq!(store.get_span(300).unwrap().len(), 3);
    assert_eq!(q(&store, &[TracingQuery::QueueId(9)]), vec![300]);
    assert_eq!(q(&store, &[TracingQuery::EventType(smtp(KIND_SPAN_START))]), vec![300]);
    // Purging again changes nothing.
    assert_eq!(store.purge_spans_before(250), Ok(()));
    assert_eq!(store.get_span(300).unwrap().len(), 3);
}

#[test]
fn span_without_queue_id_is_not_stored() {
    let mut store = MemoryStore::new();
    ingest(&mut store, span_with(50, vec![(Key::From, text("a@x"))]));
    assert_eq!(store.get_raw_span(50), Ok(None));
    assert_eq!(q(&store, &[TracingQuery::Keywords("a@x".to_string())]), Vec::<u64>::new());
    assert_eq!(store.keys_with_prefix(&[]).len(), 0);
}

#[test]
fn raw_span_matches_encoding() {
    let mut store = MemoryStore::new();
    let events = span_with(60, vec![(Key::QueueId, Value::UInt(3))]);
    ingest(&mut store, events);
    let raw = store.get_raw_span(60).unwrap().unwrap();
    let decoded = store.get_span(60).unwrap();
    assert_eq!(serialize_events(&decoded), raw);
}

#[test]
fn events_without_span_or_unopened_are_ignored() {
    let mut store = MemoryStore::new();
    let loose = Event { typ: smtp(4), span_id: None, keys: vec![(Key::QueueId, Value::UInt(1))] };
    ingest(&mut store, vec![loose, event(KIND_SPAN_END, 70, vec![(Key::QueueId, Value::UInt(1))])]);
    assert_eq!(store.keys_with_prefix(&[]).len(), 0);
}

#[test]
fn addresses_and_ips_are_indexed() {
    let mut store = MemoryStore::new();
    ingest(
        &mut store,
        span_with(
            80,
            vec![
                (Key::QueueId, Value::UInt(5)),
                (Key::To, Value::Array(vec![b"r1@x".to_vec(), b"r2@y".to_vec()])),
                (Key::Hostname, text("mx.example")),
                (Key::RemoteIp, Value::Ipv4(0x0A00_0001)),
                (Key::RemoteIp, Value::Ipv6(0x2001_0db8_0000_0000_0000_0000_0000_0001)),
            ],
        ),
    );
    for kw in ["\"r1@x\"", "\"r2@y\"", "\"mx.example\"", "\"10.0.0.1\"", "\"2001:db8::1\""] {
        assert_eq!(q(&store, &[TracingQuery::Keywords(kw.to_string())]), vec![80], "{}", kw);
    }
}

#[test]
fn quoted_keyword_is_exact_and_bare_is_prefix() {
    let mut store = MemoryStore::new();
    let mut events = span_with(40, vec![(Key::QueueId, Value::UInt(1)), (Key::From, text("a@x"))]);
    events.extend(span_with(41, vec![(Key::QueueId, Value::UInt(1)), (Key::From, text("a@xy"))]));
    ingest(&mut store, events);
    assert_eq!(q(&store, &[TracingQuery::Keywords("a@x".to_string())]), vec![41, 40]);
    assert_eq!(q(&store, &[TracingQuery::Keywords("\"a@x\"".to_string())]), vec![40]);
}

#[test]
fn window_limits_span_ids() {
    let mut store = MemoryStore::new();
    let mut events = Vec::new();
    for s in [1u64, 2, 3, 4] {
        events.extend(span_with(s, vec![(Key::QueueId, Value::UInt(8))]));
    }
    ingest(&mut store, events);
    let p = [TracingQuery::QueueId(8)];
    assert_eq!(store.query_spans(&p, 2, 3).unwrap(), vec![3, 2]);
    assert_eq!(store.query_spans(&p, 3, 0).unwrap(), vec![4, 3]);
    assert_eq!(store.query_spans(&p, 0, 1).unwrap(), vec![1]);
    assert_eq!(store.query_spans(&[], 0, 0).unwrap(), Vec::<u64>::new());
}

#[test]
fn short_index_key_is_corrupt() {
    let mut store = MemoryStore::new();
    let mut batch = BatchBuilder::new();
    batch.set(vec![121, 1, b'z'], vec![]);
    store.write(batch);
    let r = store.query_spans(&[TracingQuery::Keywords("z".to_string())], 0, 0);
    assert_eq!(r, Err(span_store::codec::StoreError::CorruptKey));
    assert_eq!(store.purge_spans_before(10), Err(span_store::codec::StoreError::CorruptKey));
}

#[test]
fn garbage_blob_is_corrupt_value() {
    let mut store = MemoryStore::new();
    let mut batch = BatchBuilder::new();
    batch.set(span_store::tracer::span_key_bytes(9), vec![0, 1, 2]);
    store.write(batch);
    assert!(matches!(store.get_span(9), Err(span_store::codec::StoreError::CorruptValue)));
    assert_eq!(store.get_raw_span(9), Ok(Some(vec![0, 1, 2])));
}

#[test]
fn event_encoding_round_trips() {
    let events = vec![
        Event {
            typ: EventType::new(EventGroup::Queue, 3),
            span_id: None,
            keys: vec![
                (Key::Reason, text("hello")),
                (Key::Size, Value::Int(-5)),
                (Key::Id, Value::Bool(true)),
                (Key::RemoteIp, Value::Ipv6(u128::MAX)),
                (Key::To, Value::Array(vec![b"a".to_vec(), vec![]])),
            ],
        },
        event(KIND_SPAN_END, 77, vec![(Key::RemoteIp, Value::Ipv4(1))]),
    ];
    let bytes = serialize_events(&events);
    let back = deserialize_events(&bytes).unwrap();
    assert_eq!(back.len(), 2);
    assert_eq!(serialize_events(&back), bytes);
    assert!(deserialize_events(&bytes[..bytes.len() - 1]).is_err());
    assert_eq!(serialize_events(&[]), vec![0u8; 8]);
}

#[test]
fn default_events_filter() {
    let all = EventType::variants();
    let defaults = StoreTracer::default_events();
    assert!(defaults.len() < all.len());
    assert!(defaults.contains(&smtp(KIND_SPAN_START)));
    assert!(!defaults.contains(&smtp(KIND_RAW_INPUT)));
    assert!(!defaults.contains(&EventType::new(EventGroup::Imap, 0)));
    assert!(defaults.contains(&EventType::new(EventGroup::MessageIngest, INGEST_HAM)));
    assert!(!defaults.contains(&EventType::new(EventGroup::MessageIngest, INGEST_IMAP_APPEND)));
    assert!(defaults.windows(2).all(|w| w[0].code() < w[1].code()));
    assert_eq!(all.len(), 23 * 8 + 7 + 12 + 16 + 5);
}

#[test]
fn store_trait_answers_like_the_store() {
    let mut store = MemoryStore::new();
    ingest(&mut store, span_with(90, vec![(Key::QueueId, Value::UInt(4))]));
    let p = [TracingQuery::QueueId(4)];
    assert_eq!(TracingStore::query_spans(&store, &p, 0, 0).unwrap(), vec![90]);
    assert_eq!(TracingStore::get_span(&store, 90).unwrap().len(), 3);
    assert!(TracingStore::get_raw_span(&store, 90).unwrap().is_some());
    assert_eq!(TracingStore::purge_spans(&mut store, 0, 0), Err(StoreError::UnexpectedError));
}

#[test]
fn prefix_keyword_lists_each_span_once() {
    let mut store = MemoryStore::new();
    ingest(
        &mut store,
        span_with(5, vec![(Key::QueueId, Value::UInt(2)), (Key::From, text("a@x")), (Key::To, text("a@xy"))]),
    );
    assert_eq!(q(&store, &[TracingQuery::Keywords("a@x".to_string())]), vec![5]);
    let twice = [TracingQuery::Keywords("a@x".to_string()), TracingQuery::Keywords("a@x".to_string())];
    assert_eq!(q(&store, &twice), vec![5]);
}

#[test]
fn failed_purge_still_drops_old_blobs() {
    let mut store = MemoryStore::new();
    ingest(&mut store, span_with(7, vec![(Key::QueueId, Value::UInt(1))]));
    let mut batch = BatchBuilder::new();
    batch.set(vec![121, 1, b'z'], vec![]);
    store.write(batch);
    assert_eq!(store.purge_spans_before(10), Err(StoreError::CorruptKey));
    assert_eq!(store.get_raw_span(7), Ok(None));
    assert_eq!(q(&store, &[TracingQuery::QueueId(1)]), vec![7]);
}

#[test]
fn corrupt_first_predicate_fails_query() {
    let mut store = MemoryStore::new();
    ingest(&mut store, span_with(3, vec![(Key::QueueId, Value::UInt(1))]));
    let mut batch = BatchBuilder::new();
    batch.set(vec![121, 1, b'z'], vec![]);
    store.write(batch);
    let p = [TracingQuery::Keywords("z".to_string()), TracingQuery::QueueId(1)];
    assert_eq!(store.query_spans(&p, 0, 0), Err(StoreError::CorruptKey));
}
