use vstd::prelude::*;

use crate::codec::{
    be16, be16_value, be32, be32_value, be64, be64_value, lemma_be16_bytes, lemma_be32_bytes,
    lemma_be64_bytes, lemma_be64_round_trip, lemma_be32_round_trip, lemma_be16_round_trip, StoreError,
};
use crate::event::{key_code, type_code, Event, EventType, Key, Value};

verus! {

/// A byte string behind its length.
pub open spec fn enc_bytes(b: Seq<u8>) -> Seq<u8> {
    be64(b.len() as u64) + b
}

/// A list of byte strings, each behind its length.
pub open spec fn enc_list(items: Seq<Vec<u8>>) -> Seq<u8>
    decreases items.len(),
{
    if items.len() == 0 {
        Seq::empty()
    } else {
        enc_list(items.drop_last()) + enc_bytes(items.last()@)
    }
}

/// A tagged attribute value.
pub open spec fn enc_value(v: Value) -> Seq<u8> {
    match v {
        Value::Text(b) => seq![0u8] + enc_bytes(b@),
        Value::UInt(n) => seq![1u8] + be64(n),
        Value::Int(n) => seq![2u8] + be64(n as u64),
        Value::Bool(f) => seq![3u8, if f { 1u8 } else { 0u8 }],
        Value::Ipv4(x) => seq![4u8] + be32(x),
        Value::Ipv6(x) => seq![5u8] + be64((x >> 64u128) as u64) + be64(x as u64),
        Value::Array(items) => seq![6u8] + be64(items@.len() as u64) + enc_list(items@),
    }
}

/// A key and its value.
pub open spec fn enc_attr(a: (Key, Value)) -> Seq<u8> {
    be16(key_code(a.0)) + enc_value(a.1)
}

/// Attributes one after the other.
pub open spec fn enc_attrs(s: Seq<(Key, Value)>) -> Seq<u8>
    decreases s.len(),
{
    if s.len() == 0 {
        Seq::empty()
    } else {
        enc_attrs(s.drop_last()) + enc_attr(s.last())
    }
}

/// The optional span id: a flag byte, then the id when there is one.
pub open spec fn enc_span_id(s: Option<u64>) -> Seq<u8> {
    match s {
        None => seq![0u8],
        Some(id) => seq![1u8] + be64(id),
    }
}

/// One event: type code, span id, attribute count, attributes.
pub open spec fn enc_event(e: Event) -> Seq<u8> {
    be16(type_code(e.typ)) + enc_span_id(e.span_id) + be64(e.keys@.len() as u64) + enc_attrs(
        e.keys@,
    )
}

/// Events one after the other.
pub open spec fn enc_event_seq(s: Seq<Event>) -> Seq<u8>
    decreases s.len(),
{
    if s.len() == 0 {
        Seq::empty()
    } else {
        enc_event_seq(s.drop_last()) + enc_event(s.last())
    }
}

/// A list of events: its length, then each event.
pub open spec fn enc_events(s: Seq<Event>) -> Seq<u8> {
    be64(s.len() as u64) + enc_event_seq(s)
}

fn put_u8(out: &mut Vec<u8>, x: u8)
    ensures
        final(out)@ == old(out)@ + seq![x],
{
    out.push(x);
    assert(out@ =~= old(out)@ + seq![x]);
}

fn put_u16(out: &mut Vec<u8>, x: u16)
    ensures
        final(out)@ == old(out)@ + be16(x),
{
    out.push((x >> 8u16) as u8);
    out.push(x as u8);
    assert(out@ =~= old(out)@ + be16(x));
}

fn put_u32(out: &mut Vec<u8>, x: u32)
    ensures
        final(out)@ == old(out)@ + be32(x),
{
    out.push((x >> 24u32) as u8);
    out.push((x >> 16u32) as u8);
    out.push((x >> 8u32) as u8);
    out.push(x as u8);
    assert(out@ =~= old(out)@ + be32(x));
}

fn put_u64(out: &mut Vec<u8>, x: u64)
    ensures
        final(out)@ == old(out)@ + be64(x),
{
    out.push((x >> 56u64) as u8);
    out.push((x >> 48u64) as u8);
    out.push((x >> 40u64) as u8);
    out.push((x >> 32u64) as u8);
    out.push((x >> 24u64) as u8);
    out.push((x >> 16u64) as u8);
    out.push((x >> 8u64) as u8);
    out.push(x as u8);
    assert(out@ =~= old(out)@ + be64(x));
}

fn put_bytes(out: &mut Vec<u8>, b: &[u8])
    ensures
        final(out)@ == old(out)@ + enc_bytes(b@),
{
    put_u64(out, b.len() as u64);
    let ghost mid = out@;
    let mut i: usize = 0;
    while i < b.len()
        invariant
            i <= b@.len(),
            out@ == mid + b@.subrange(0, i as int),
        decreases b@.len() - i,
    {
        out.push(b[i]);
        i = i + 1;
        assert(out@ =~= mid + b@.subrange(0, i as int));
    }
    assert(b@.subrange(0, b@.len() as int) =~= b@);
    assert(out@ =~= old(out)@ + enc_bytes(b@));
}

fn put_value(out: &mut Vec<u8>, v: &Value)
    ensures
        final(out)@ == old(out)@ + enc_value(*v),
{
    match v {
        Value::Text(b) => {
            put_u8(out, 0);
            put_bytes(out, b.as_slice());
        },
        Value::UInt(n) => {
            put_u8(out, 1);
            put_u64(out, *n);
        },
        Value::Int(n) => {
            put_u8(out, 2);
            put_u64(out, *n as u64);
        },
        Value::Bool(f) => {
            put_u8(out, 3);
            put_u8(out, if *f { 1 } else { 0 });
        },
        Value::Ipv4(x) => {
            put_u8(out, 4);
            put_u32(out, *x);
        },
        Value::Ipv6(x) => {
            put_u8(out, 5);
            put_u64(out, (*x >> 64u128) as u64);
            put_u64(out, *x as u64);
        },
        Value::Array(items) => {
            put_u8(out, 6);
            put_u64(out, items.len() as u64);
            let ghost mid = out@;
            let mut i: usize = 0;
            while i < items.len()
                invariant
                    i <= items@.len(),
                    out@ == mid + enc_list(items@.subrange(0, i as int)),
                decreases items@.len() - i,
            {
                put_bytes(out, items[i].as_slice());
                i = i + 1;
                assert(items@.subrange(0, i as int).drop_last() =~= items@.subrange(0, i - 1));
            }
            assert(items@.subrange(0, items@.len() as int) =~= items@);
        },
    }
    assert(out@ =~= old(out)@ + enc_value(*v));
}

fn put_event(out: &mut Vec<u8>, e: &Event)
    ensures
        final(out)@ == old(out)@ + enc_event(*e),
{
    put_u16(out, e.typ.code());
    match e.span_id {
        None => put_u8(out, 0),
        Some(id) => {
            put_u8(out, 1);
            put_u64(out, id);
        },
    }
    put_u64(out, e.keys.len() as u64);
    let ghost mid = out@;
    let mut i: usize = 0;
    while i < e.keys.len()
        invariant
            i <= e.keys@.len(),
            out@ == mid + enc_attrs(e.keys@.subrange(0, i as int)),
        decreases e.keys@.len() - i,
    {
        put_u16(out, e.keys[i].0.code());
        put_value(out, &e.keys[i].1);
        i = i + 1;
        assert(e.keys@.subrange(0, i as int).drop_last() =~= e.keys@.subrange(0, i - 1));
    }
    assert(e.keys@.subrange(0, e.keys@.len() as int) =~= e.keys@);
    assert(out@ =~= old(out)@ + enc_event(*e));
}

/// Encodes a list of events as a span blob.
pub fn serialize_events(events: &[Event]) -> (r: Vec<u8>)
    ensures
        r@ == enc_events(events@),
{
    let mut out: Vec<u8> = Vec::new();
    put_u64(&mut out, events.len() as u64);
    let ghost mid = out@;
    let mut i: usize = 0;
    while i < events.len()
        invariant
            i <= events@.len(),
            out@ == mid + enc_event_seq(events@.subrange(0, i as int)),
            mid == be64(events@.len() as u64),
        decreases events@.len() - i,
    {
        put_event(&mut out, &events[i]);
        i = i + 1;
        assert(events@.subrange(0, i as int).drop_last() =~= events@.subrange(0, i - 1));
    }
    assert(events@.subrange(0, events@.len() as int) =~= events@);
    out
}

/// Whether bytes `from..to` of `b` are exactly `x`.
pub open spec fn span_is(b: Seq<u8>, from: int, to: int, x: Seq<u8>) -> bool {
    0 <= from <= to <= b.len() && b.subrange(from, to) == x
}

proof fn lemma_join(b: Seq<u8>, p0: int, p1: int, p2: int, x: Seq<u8>, y: Seq<u8>)
    requires
        span_is(b, p0, p1, x),
        span_is(b, p1, p2, y),
    ensures
        span_is(b, p0, p2, x + y),
{
    assert(b.subrange(p0, p2) =~= b.subrange(p0, p1) + b.subrange(p1, p2));
}

fn read_u8(b: &[u8], pos: usize) -> (r: Result<(u8, usize), StoreError>)
    ensures
        r matches Ok((x, end)) ==> end == pos + 1 && span_is(b@, pos as int, end as int, seq![x]),
        r matches Err(e) ==> e == StoreError::CorruptValue,
        pos + 1 <= b@.len() ==> r is Ok,
{
    if pos >= b.len() {
        return Err(StoreError::CorruptValue);
    }
    assert(b@.subrange(pos as int, pos + 1) =~= seq![b@[pos as int]]);
    Ok((b[pos], pos + 1))
}

fn read_u16(b: &[u8], pos: usize) -> (r: Result<(u16, usize), StoreError>)
    ensures
        r matches Ok((x, end)) ==> end == pos + 2 && span_is(b@, pos as int, end as int, be16(x)),
        r matches Err(e) ==> e == StoreError::CorruptValue,
        pos + 2 <= b@.len() ==> r is Ok,
{
    if pos > b.len() || b.len() - pos < 2 {
        return Err(StoreError::CorruptValue);
    }
    let x = ((b[pos] as u16) << 8u16) | (b[pos + 1] as u16);
    proof {
        let s = b@.subrange(pos as int, pos + 2);
        assert(x == be16_value(s));
        lemma_be16_bytes(s);
    }
    Ok((x, pos + 2))
}

fn read_u32(b: &[u8], pos: usize) -> (r: Result<(u32, usize), StoreError>)
    ensures
        r matches Ok((x, end)) ==> end == pos + 4 && span_is(b@, pos as int, end as int, be32(x)),
        r matches Err(e) ==> e == StoreError::CorruptValue,
        pos + 4 <= b@.len() ==> r is Ok,
{
    if pos > b.len() || b.len() - pos < 4 {
        return Err(StoreError::CorruptValue);
    }
    let x = ((b[pos] as u32) << 24u32) | ((b[pos + 1] as u32) << 16u32) | ((b[pos + 2] as u32)
        << 8u32) | (b[pos + 3] as u32);
    proof {
        let s = b@.subrange(pos as int, pos + 4);
        assert(x == be32_value(s));
        lemma_be32_bytes(s);
    }
    Ok((x, pos + 4))
}

fn read_u64(b: &[u8], pos: usize) -> (r: Result<(u64, usize), StoreError>)
    ensures
        r matches Ok((x, end)) ==> end == pos + 8 && span_is(b@, pos as int, end as int, be64(x)),
        r matches Err(e) ==> e == StoreError::CorruptValue,
        pos + 8 <= b@.len() ==> r is Ok,
{
    if pos > b.len() || b.len() - pos < 8 {
        return Err(StoreError::CorruptValue);
    }
    let x = ((b[pos] as u64) << 56u64) | ((b[pos + 1] as u64) << 48u64) | ((b[pos + 2] as u64)
        << 40u64) | ((b[pos + 3] as u64) << 32u64) | ((b[pos + 4] as u64) << 24u64) | ((b[pos
        + 5] as u64) << 16u64) | ((b[pos + 6] as u64) << 8u64) | (b[pos + 7] as u64);
    proof {
        let s = b@.subrange(pos as int, pos + 8);
        assert(x == be64_value(s));
        lemma_be64_bytes(s);
    }
    Ok((x, pos + 8))
}

proof fn lemma_split(b: Seq<u8>, p0: int, p2: int, x: Seq<u8>, y: Seq<u8>)
    requires
        span_is(b, p0, p2, x + y),
    ensures
        span_is(b, p0, p0 + x.len(), x),
        span_is(b, p0 + x.len(), p2, y),
{
    assert(b.subrange(p0, p2).len() == x.len() + y.len());
    assert(b.subrange(p0, p0 + x.len()) =~= b.subrange(p0, p2).subrange(0, x.len() as int));
    assert((x + y).subrange(0, x.len() as int) =~= x);
    assert(b.subrange(p0 + x.len(), p2) =~= b.subrange(p0, p2).subrange(x.len() as int, (x + y).len() as int));
    assert((x + y).subrange(x.len() as int, (x + y).len() as int) =~= y);
}

/// Whether the bytes `x` stand at `pos` in `b`.
pub open spec fn encoded_at(b: Seq<u8>, pos: int, x: Seq<u8>) -> bool {
    span_is(b, pos, pos + x.len(), x)
}

/// Whether `y` begins `x`.
pub open spec fn is_prefix(y: Seq<u8>, x: Seq<u8>) -> bool {
    y.len() <= x.len() && x.subrange(0, y.len() as int) == y
}

proof fn lemma_prefix_encoded(b: Seq<u8>, pos: int, x: Seq<u8>, y: Seq<u8>)
    requires
        encoded_at(b, pos, x),
        is_prefix(y, x),
    ensures
        encoded_at(b, pos, y),
{
    assert(b.subrange(pos, pos + y.len()) =~= b.subrange(pos, pos + x.len()).subrange(0, y.len() as int));
}

proof fn lemma_prefix_trans(z: Seq<u8>, y: Seq<u8>, x: Seq<u8>)
    requires
        is_prefix(z, y),
        is_prefix(y, x),
    ensures
        is_prefix(z, x),
{
    assert(x.subrange(0, z.len() as int) =~= x.subrange(0, y.len() as int).subrange(0, z.len() as int));
}

proof fn lemma_prefix_append(y: Seq<u8>, t: Seq<u8>)
    ensures
        is_prefix(y, y + t),
{
    assert((y + t).subrange(0, y.len() as int) =~= y);
}

proof fn lemma_list_prefix(s: Seq<Vec<u8>>, i: int)
    requires
        0 <= i <= s.len(),
    ensures
        is_prefix(enc_list(s.subrange(0, i)), enc_list(s)),
    decreases s.len(),
{
    if i == s.len() {
        assert(s.subrange(0, i) =~= s);
        assert(enc_list(s).subrange(0, enc_list(s).len() as int) =~= enc_list(s));
    } else {
        let d = s.drop_last();
        assert(d.subrange(0, i) =~= s.subrange(0, i));
        lemma_list_prefix(d, i);
        lemma_prefix_append(enc_list(d), enc_bytes(s.last()@));
        lemma_prefix_trans(enc_list(s.subrange(0, i)), enc_list(d), enc_list(s));
    }
}

proof fn lemma_attrs_prefix(s: Seq<(Key, Value)>, i: int)
    requires
        0 <= i <= s.len(),
    ensures
        is_prefix(enc_attrs(s.subrange(0, i)), enc_attrs(s)),
    decreases s.len(),
{
    if i == s.len() {
        assert(s.subrange(0, i) =~= s);
        assert(enc_attrs(s).subrange(0, enc_attrs(s).len() as int) =~= enc_attrs(s));
    } else {
        let d = s.drop_last();
        assert(d.subrange(0, i) =~= s.subrange(0, i));
        lemma_attrs_prefix(d, i);
        lemma_prefix_append(enc_attrs(d), enc_attr(s.last()));
        lemma_prefix_trans(enc_attrs(s.subrange(0, i)), enc_attrs(d), enc_attrs(s));
    }
}

proof fn lemma_event_seq_prefix(s: Seq<Event>, i: int)
    requires
        0 <= i <= s.len(),
    ensures
        is_prefix(enc_event_seq(s.subrange(0, i)), enc_event_seq(s)),
    decreases s.len(),
{
    if i == s.len() {
        assert(s.subrange(0, i) =~= s);
        assert(enc_event_seq(s).subrange(0, enc_event_seq(s).len() as int) =~= enc_event_seq(s));
    } else {
        let d = s.drop_last();
        assert(d.subrange(0, i) =~= s.subrange(0, i));
        lemma_event_seq_prefix(d, i);
        lemma_prefix_append(enc_event_seq(d), enc_event(s.last()));
        lemma_prefix_trans(enc_event_seq(s.subrange(0, i)), enc_event_seq(d), enc_event_seq(s));
    }
}

/// The `i`-th step of a list: what follows the first `i` elements begins
/// with the encoding of element `i`.
proof fn lemma_list_step(b: Seq<u8>, start: int, s: Seq<Vec<u8>>, i: int)
    requires
        0 <= i < s.len(),
        encoded_at(b, start, enc_list(s)),
    ensures
        encoded_at(b, start + enc_list(s.subrange(0, i)).len(), enc_bytes(s[i]@)),
        enc_list(s.subrange(0, i + 1)).len() == enc_list(s.subrange(0, i)).len() + enc_bytes(s[i]@).len(),
{
    lemma_list_prefix(s, i + 1);
    lemma_prefix_encoded(b, start, enc_list(s), enc_list(s.subrange(0, i + 1)));
    assert(s.subrange(0, i + 1).drop_last() =~= s.subrange(0, i));
    lemma_split(b, start, start + enc_list(s.subrange(0, i + 1)).len(), enc_list(s.subrange(0, i)), enc_bytes(s[i]@));
}

proof fn lemma_attrs_step(b: Seq<u8>, start: int, s: Seq<(Key, Value)>, i: int)
    requires
        0 <= i < s.len(),
        encoded_at(b, start, enc_attrs(s)),
    ensures
        encoded_at(b, start + enc_attrs(s.subrange(0, i)).len(), enc_attr(s[i])),
        enc_attrs(s.subrange(0, i + 1)).len() == enc_attrs(s.subrange(0, i)).len() + enc_attr(s[i]).len(),
{
    lemma_attrs_prefix(s, i + 1);
    lemma_prefix_encoded(b, start, enc_attrs(s), enc_attrs(s.subrange(0, i + 1)));
    assert(s.subrange(0, i + 1).drop_last() =~= s.subrange(0, i));
    lemma_split(b, start, start + enc_attrs(s.subrange(0, i + 1)).len(), enc_attrs(s.subrange(0, i)), enc_attr(s[i]));
}

proof fn lemma_event_seq_step(b: Seq<u8>, start: int, s: Seq<Event>, i: int)
    requires
        0 <= i < s.len(),
        encoded_at(b, start, enc_event_seq(s)),
    ensures
        encoded_at(b, start + enc_event_seq(s.subrange(0, i)).len(), enc_event(s[i])),
        enc_event_seq(s.subrange(0, i + 1)).len() == enc_event_seq(s.subrange(0, i)).len() + enc_event(s[i]).len(),
{
    lemma_event_seq_prefix(s, i + 1);
    lemma_prefix_encoded(b, start, enc_event_seq(s), enc_event_seq(s.subrange(0, i + 1)));
    assert(s.subrange(0, i + 1).drop_last() =~= s.subrange(0, i));
    lemma_split(b, start, start + enc_event_seq(s.subrange(0, i + 1)).len(), enc_event_seq(s.subrange(0, i)), enc_event(s[i]));
}

fn read_bytes(b: &[u8], pos: usize, Ghost(w): Ghost<Seq<u8>>) -> (r: Result<(Vec<u8>, usize), StoreError>)
    ensures
        r matches Ok((x, end)) ==> span_is(b@, pos as int, end as int, enc_bytes(x@)),
        r matches Err(e) ==> e == StoreError::CorruptValue,
        encoded_at(b@, pos as int, enc_bytes(w)) ==> (r matches Ok((_, end)) && end == pos + enc_bytes(w).len()),
{
    let n: usize = b.len();
    proof {
        if encoded_at(b@, pos as int, enc_bytes(w)) {
            lemma_split(b@, pos as int, pos + enc_bytes(w).len(), be64(w.len() as u64), w);
            lemma_be64_round_trip(w.len() as u64);
        }
    }
    let (len, start) = read_u64(b, pos)?;
    proof {
        if encoded_at(b@, pos as int, enc_bytes(w)) {
            assert(be64(len) == be64(w.len() as u64));
            crate::codec::lemma_be64_injective(len, w.len() as u64);
            assert(w.len() as u64 == w.len());
        }
    }
    if len > (b.len() - start) as u64 {
        return Err(StoreError::CorruptValue);
    }
    let end = start + len as usize;
    let mut x: Vec<u8> = Vec::new();
    let mut i: usize = start;
    while i < end
        invariant
            start <= i <= end <= b@.len(),
            x@ == b@.subrange(start as int, i as int),
        decreases end - i,
    {
        x.push(b[i]);
        i = i + 1;
        assert(x@ =~= b@.subrange(start as int, i as int));
    }
    proof {
        lemma_join(b@, pos as int, start as int, end as int, be64(len), x@);
    }
    Ok((x, end))
}

proof fn lemma_list_len(s: Seq<Vec<u8>>)
    ensures
        enc_list(s).len() >= s.len(),
    decreases s.len(),
{
    if s.len() > 0 {
        lemma_list_len(s.drop_last());
    }
}

fn read_array(b: &[u8], p: usize, Ghost(wi): Ghost<Seq<Vec<u8>>>) -> (r: Result<(Vec<Vec<u8>>, usize), StoreError>)
    ensures
        r matches Ok((items, end)) ==> span_is(b@, p as int, end as int, be64(items@.len() as u64) + enc_list(items@)),
        r matches Err(e) ==> e == StoreError::CorruptValue,
        encoded_at(b@, p as int, be64(wi.len() as u64) + enc_list(wi)) ==> (r matches Ok((_, end)) && end == p + 8 + enc_list(wi).len()),
{
    let n: usize = b.len();
    let ghost hyp = encoded_at(b@, p as int, be64(wi.len() as u64) + enc_list(wi));
    proof {
        if hyp {
            lemma_split(b@, p as int, p + 8 + enc_list(wi).len(), be64(wi.len() as u64), enc_list(wi));
            lemma_list_len(wi);
        }
    }
    let (count, start) = read_u64(b, p)?;
    proof {
        if hyp {
            assert(be64(count) == be64(wi.len() as u64));
            crate::codec::lemma_be64_injective(count, wi.len() as u64);
        }
    }
    let mut items: Vec<Vec<u8>> = Vec::new();
    let mut q: usize = start;
    let mut i: u64 = 0;
    assert(b@.subrange(start as int, start as int) =~= enc_list(items@));
    assert(wi.subrange(0, 0) =~= Seq::<Vec<u8>>::empty());
    while i < count
        invariant
            i <= count,
            n == b@.len(),
            hyp == encoded_at(b@, p as int, be64(wi.len() as u64) + enc_list(wi)),
            items@.len() == i,
            span_is(b@, start as int, q as int, enc_list(items@)),
            span_is(b@, p as int, start as int, be64(count)),
            hyp ==> count == wi.len() && encoded_at(b@, start as int, enc_list(wi)),
            hyp ==> q == start + enc_list(wi.subrange(0, i as int)).len(),
        decreases count - i,
    {
        proof {
            if hyp {
                lemma_list_step(b@, start as int, wi, i as int);
            }
        }
        let ghost wx: Seq<u8> = if hyp { wi[i as int]@ } else { Seq::empty() };
        assert(hyp ==> encoded_at(b@, q as int, enc_bytes(wx)));
        let (x, next) = read_bytes(b, q, Ghost(wx))?;
        proof {
            lemma_join(b@, start as int, q as int, next as int, enc_list(items@), enc_bytes(x@));
        }
        let ghost old_items = items@;
        items.push(x);
        assert(items@.drop_last() =~= old_items);
        q = next;
        i = i + 1;
    }
    proof {
        lemma_join(b@, p as int, start as int, q as int, be64(count), enc_list(items@));
        if hyp {
            assert(wi.subrange(0, count as int) =~= wi);
        }
    }
    Ok((items, q))
}

#[verifier::rlimit(30)]
fn read_value(b: &[u8], pos: usize, Ghost(w): Ghost<Value>) -> (r: Result<(Value, usize), StoreError>)
    ensures
        r matches Ok((v, end)) ==> span_is(b@, pos as int, end as int, enc_value(v)),
        r matches Err(e) ==> e == StoreError::CorruptValue,
        encoded_at(b@, pos as int, enc_value(w)) ==> (r matches Ok((_, end)) && end == pos + enc_value(w).len()),
{
    let n: usize = b.len();
    let ghost hyp = encoded_at(b@, pos as int, enc_value(w));
    let ghost body = enc_value(w).subrange(1, enc_value(w).len() as int);
    proof {
        if hyp {
            assert(enc_value(w) =~= seq![enc_value(w)[0]] + body);
            lemma_split(b@, pos as int, pos + enc_value(w).len(), seq![enc_value(w)[0]], body);
        }
    }
    let (tag, p) = read_u8(b, pos)?;
    proof {
        if hyp {
            assert(tag == enc_value(w)[0]);
        }
    }
    if tag == 0 {
        let ghost wb: Seq<u8> = match w {
            Value::Text(y) => y@,
            _ => Seq::empty(),
        };
        proof {
            if hyp {
                assert(body =~= enc_bytes(wb));
            }
        }
        let (x, end) = read_bytes(b, p, Ghost(wb))?;
        proof {
            lemma_join(b@, pos as int, p as int, end as int, seq![tag], enc_bytes(x@));
        }
        Ok((Value::Text(x), end))
    } else if tag == 1 {
        let (n, end) = read_u64(b, p)?;
        proof {
            lemma_join(b@, pos as int, p as int, end as int, seq![tag], be64(n));
        }
        Ok((Value::UInt(n), end))
    } else if tag == 2 {
        let (n, end) = read_u64(b, p)?;
        proof {
            lemma_join(b@, pos as int, p as int, end as int, seq![tag], be64(n));
            assert((n as i64) as u64 == n) by (bit_vector);
        }
        Ok((Value::Int(n as i64), end))
    } else if tag == 3 {
        let (f, end) = read_u8(b, p)?;
        proof {
            if hyp {
                assert(f == body[0]);
            }
        }
        if f > 1 {
            return Err(StoreError::CorruptValue);
        }
        proof {
            lemma_join(b@, pos as int, p as int, end as int, seq![tag], seq![f]);
            assert(seq![tag] + seq![f] =~= seq![3u8, if f == 1 { 1u8 } else { 0u8 }]);
        }
        Ok((Value::Bool(f == 1), end))
    } else if tag == 4 {
        let (x, end) = read_u32(b, p)?;
        proof {
            lemma_join(b@, pos as int, p as int, end as int, seq![tag], be32(x));
        }
        Ok((Value::Ipv4(x), end))
    } else if tag == 5 {
        let (hi, p1) = read_u64(b, p)?;
        let (lo, end) = read_u64(b, p1)?;
        let x: u128 = ((hi as u128) << 64u128) | (lo as u128);
        proof {
            assert((x >> 64u128) as u64 == hi && x as u64 == lo) by (bit_vector)
                requires
                    x == ((hi as u128) << 64u128) | (lo as u128),
            ;
            lemma_join(b@, pos as int, p as int, p1 as int, seq![tag], be64(hi));
            lemma_join(b@, pos as int, p1 as int, end as int, seq![tag] + be64(hi), be64(lo));
        }
        Ok((Value::Ipv6(x), end))
    } else if tag == 6 {
        let ghost wi: Seq<Vec<u8>> = match w {
            Value::Array(items) => items@,
            _ => Seq::empty(),
        };
        proof {
            if hyp {
                assert(body =~= be64(wi.len() as u64) + enc_list(wi));
            }
        }
        let (items, end) = read_array(b, p, Ghost(wi))?;
        proof {
            lemma_join(b@, pos as int, p as int, end as int, seq![tag], be64(items@.len() as u64) + enc_list(items@));
            assert(seq![tag] + (be64(items@.len() as u64) + enc_list(items@)) =~= enc_value(Value::Array(items)));
        }
        Ok((Value::Array(items), end))
    } else {
        Err(StoreError::CorruptValue)
    }
}

#[verifier::rlimit(40)]
fn read_event(b: &[u8], pos: usize, Ghost(w): Ghost<Event>) -> (r: Result<(Event, usize), StoreError>)
    ensures
        r matches Ok((e, end)) ==> span_is(b@, pos as int, end as int, enc_event(e)),
        r matches Err(e) ==> e == StoreError::CorruptValue,
        encoded_at(b@, pos as int, enc_event(w)) ==> (r matches Ok((_, end)) && end == pos + enc_event(w).len()),
{
    let n: usize = b.len();
    let ghost hyp = encoded_at(b@, pos as int, enc_event(w));
    let ghost wk = w.keys@;
    proof {
        if hyp {
            lemma_split(b@, pos as int, pos + enc_event(w).len(), be16(type_code(w.typ)) + enc_span_id(w.span_id) + be64(wk.len() as u64), enc_attrs(wk));
            lemma_split(b@, pos as int, pos + 2 + enc_span_id(w.span_id).len() + 8, be16(type_code(w.typ)) + enc_span_id(w.span_id), be64(wk.len() as u64));
            lemma_split(b@, pos as int, pos + 2 + enc_span_id(w.span_id).len(), be16(type_code(w.typ)), enc_span_id(w.span_id));
        }
    }
    let (code, p1) = read_u16(b, pos)?;
    proof {
        if hyp {
            assert(be16(code) == be16(type_code(w.typ)));
            lemma_be16_round_trip(code);
            lemma_be16_round_trip(type_code(w.typ));
            assert(code / 256 < 27) by {
                assert(type_code(w.typ) / 256 == crate::event::group_index(w.typ.group));
            }
        }
    }
    let typ = match EventType::from_code(code) {
        Some(t) => t,
        None => return Err(StoreError::CorruptValue),
    };
    let (flag, p2) = read_u8(b, p1)?;
    proof {
        if hyp {
            assert(flag == enc_span_id(w.span_id)[0]);
        }
    }
    let (span_id, p3) = if flag == 0 {
        assert(seq![flag] =~= enc_span_id(None));
        (None, p2)
    } else if flag == 1 {
        proof {
            if hyp {
                assert(w.span_id is Some);
                assert(enc_span_id(w.span_id) =~= seq![1u8] + be64(w.span_id->Some_0));
                lemma_split(b@, p1 as int, pos + 2 + enc_span_id(w.span_id).len(), seq![1u8], be64(w.span_id->Some_0));
            }
        }
        let (id, p3) = read_u64(b, p2)?;
        proof {
            lemma_join(b@, p1 as int, p2 as int, p3 as int, seq![flag], be64(id));
        }
        (Some(id), p3)
    } else {
        return Err(StoreError::CorruptValue);
    };
    proof {
        lemma_join(b@, pos as int, p1 as int, p3 as int, be16(code), enc_span_id(span_id));
        if hyp {
            assert(p3 == pos + 2 + enc_span_id(w.span_id).len());
            lemma_list_len_attrs(wk);
        }
    }
    let (count, start) = read_u64(b, p3)?;
    let ghost head = be16(code) + enc_span_id(span_id) + be64(count);
    proof {
        lemma_join(b@, pos as int, p3 as int, start as int, be16(code) + enc_span_id(span_id), be64(count));
        if hyp {
            assert(be64(count) == be64(wk.len() as u64));
            crate::codec::lemma_be64_injective(count, wk.len() as u64);
        }
    }
    let mut keys: Vec<(Key, Value)> = Vec::new();
    let mut q: usize = start;
    let mut i: u64 = 0;
    assert(b@.subrange(start as int, start as int) =~= enc_attrs(keys@));
    assert(wk.subrange(0, 0) =~= Seq::<(Key, Value)>::empty());
    while i < count
        invariant
            i <= count,
            n == b@.len(),
            hyp == encoded_at(b@, pos as int, enc_event(w)),
            wk == w.keys@,
            keys@.len() == i,
            span_is(b@, start as int, q as int, enc_attrs(keys@)),
            span_is(b@, pos as int, start as int, head),
            hyp ==> count == wk.len() && encoded_at(b@, start as int, enc_attrs(wk)),
            hyp ==> q == start + enc_attrs(wk.subrange(0, i as int)).len(),
        decreases count - i,
    {
        let ghost wa: (Key, Value) = if hyp { wk[i as int] } else { (Key::Id, Value::Bool(false)) };
        proof {
            if hyp {
                lemma_attrs_step(b@, start as int, wk, i as int);
                lemma_split(b@, q as int, q + enc_attr(wa).len(), be16(key_code(wa.0)), enc_value(wa.1));
            }
        }
        let (kc, p4) = read_u16(b, q)?;
        proof {
            if hyp {
                assert(be16(kc) == be16(key_code(wa.0)));
                lemma_be16_round_trip(kc);
                lemma_be16_round_trip(key_code(wa.0));
            }
        }
        let key = match Key::from_code(kc) {
            Some(k) => k,
            None => return Err(StoreError::CorruptValue),
        };
        let (value, next) = read_value(b, p4, Ghost(wa.1))?;
        proof {
            lemma_join(b@, q as int, p4 as int, next as int, be16(kc), enc_value(value));
            lemma_join(b@, start as int, q as int, next as int, enc_attrs(keys@), enc_attr((key, value)));
        }
        let ghost old_keys = keys@;
        keys.push((key, value));
        assert(keys@.drop_last() =~= old_keys);
        q = next;
        i = i + 1;
    }
    let e = Event { typ, span_id, keys };
    proof {
        lemma_join(b@, pos as int, start as int, q as int, head, enc_attrs(e.keys@));
        assert(head + enc_attrs(e.keys@) =~= enc_event(e));
        if hyp {
            assert(wk.subrange(0, count as int) =~= wk);
        }
    }
    Ok((e, q))
}

proof fn lemma_list_len_attrs(s: Seq<(Key, Value)>)
    ensures
        enc_attrs(s).len() >= s.len(),
    decreases s.len(),
{
    if s.len() > 0 {
        lemma_list_len_attrs(s.drop_last());
    }
}

proof fn lemma_list_len_events(s: Seq<Event>)
    ensures
        enc_event_seq(s).len() >= s.len(),
    decreases s.len(),
{
    if s.len() > 0 {
        lemma_list_len_events(s.drop_last());
    }
}

/// Decodes a span blob into its events. It succeeds exactly on the blobs
/// that encode some list of events, and what it returns encodes back to the
/// blob.
pub fn deserialize_events(b: &[u8]) -> (r: Result<Vec<Event>, StoreError>)
    ensures
        r matches Ok(events) ==> enc_events(events@) == b@,
        r matches Err(e) ==> e == StoreError::CorruptValue,
        (exists|evs: Seq<Event>| enc_events(evs) == b@) ==> r is Ok,
{
    let n: usize = b.len();
    let ghost hyp = exists|evs: Seq<Event>| enc_events(evs) == b@;
    let ghost we: Seq<Event> = if hyp { choose|evs: Seq<Event>| enc_events(evs) == b@ } else { Seq::empty() };
    proof {
        if hyp {
            assert(b@.subrange(0, b@.len() as int) =~= b@);
            lemma_split(b@, 0, b@.len() as int, be64(we.len() as u64), enc_event_seq(we));
            lemma_list_len_events(we);
        }
    }
    let (count, start) = read_u64(b, 0)?;
    proof {
        if hyp {
            assert(be64(count) == be64(we.len() as u64));
            crate::codec::lemma_be64_injective(count, we.len() as u64);
        }
    }
    let mut events: Vec<Event> = Vec::new();
    let mut q: usize = start;
    let mut i: u64 = 0;
    assert(b@.subrange(start as int, start as int) =~= enc_event_seq(events@));
    assert(we.subrange(0, 0) =~= Seq::<Event>::empty());
    while i < count
        invariant
            i <= count,
            n == b@.len(),
            hyp == (exists|evs: Seq<Event>| enc_events(evs) == b@),
            events@.len() == i,
            span_is(b@, start as int, q as int, enc_event_seq(events@)),
            span_is(b@, 0, start as int, be64(count)),
            hyp ==> count == we.len() && encoded_at(b@, start as int, enc_event_seq(we)),
            hyp ==> q == start + enc_event_seq(we.subrange(0, i as int)).len(),
            hyp ==> start + enc_event_seq(we).len() == b@.len(),
        decreases count - i,
    {
        let ghost wv: Event = if hyp { we[i as int] } else { arbitrary() };
        proof {
            if hyp {
                lemma_event_seq_step(b@, start as int, we, i as int);
            }
        }
        let (e, next) = read_event(b, q, Ghost(wv))?;
        proof {
            lemma_join(b@, start as int, q as int, next as int, enc_event_seq(events@), enc_event(e));
        }
        let ghost old_events = events@;
        events.push(e);
        assert(events@.drop_last() =~= old_events);
        q = next;
        i = i + 1;
    }
    proof {
        if hyp {
            assert(we.subrange(0, count as int) =~= we);
        }
    }
    if q != b.len() {
        return Err(StoreError::CorruptValue);
    }
    proof {
        lemma_join(b@, 0, start as int, q as int, be64(count), enc_event_seq(events@));
        assert(b@.subrange(0, b@.len() as int) =~= b@);
    }
    Ok(events)
}

} // verus!
