use vstd::prelude::*;

use crate::codec::{be16, be32, be32_value, be64, lemma_be32_round_trip, lemma_be64_round_trip};
use crate::event::{type_code, Event};
use crate::query::{query_ids, strictly_descending, TracingQuery};
use crate::retention::{is_span_blob_key, purged_by, purged_keys};
use crate::query::key_span_id;
use crate::serial::enc_events;
use crate::tracer::{commit_effect, index_key, span_key, span_queue_ids, span_texts};
use crate::undelete::{entry_matches, is_live, reservation_key, reservation_prefix, reservation_value};
use crate::kv::has_prefix;

verus! {

/// A committed span has its blob, and an index key for its start event's
/// type, for each of its queue ids and for each of its address-like values.
pub proof fn lemma_commit_indexes_span(m: Map<Seq<u8>, Seq<u8>>, s: u64, evs: Seq<Event>)
    requires
        span_queue_ids(evs) != Set::<u64>::empty(),
    ensures
        commit_effect(m, s, evs).contains_key(span_key(s)),
        commit_effect(m, s, evs)[span_key(s)] == enc_events(evs),
        commit_effect(m, s, evs).contains_key(index_key(s, be16(type_code(evs[0].typ)))),
        forall|q: u64| #[trigger] span_queue_ids(evs).contains(q) ==> commit_effect(m, s, evs).contains_key(index_key(s, be64(q))),
        forall|v: Seq<u8>| #[trigger] span_texts(evs).contains(v) ==> commit_effect(m, s, evs).contains_key(index_key(s, v)),
{
    assert(index_key(s, be16(type_code(evs[0].typ)))[1] != span_key(s)[1]);
    assert(!crate::tracer::span_index_keys(s, evs).contains(span_key(s))) by {
        if crate::tracer::span_index_keys(s, evs).contains(span_key(s)) {
            assert(span_key(s)[1] == 0u8);
            if exists|q: u64| span_queue_ids(evs).contains(q) && span_key(s) == #[trigger] index_key(s, be64(q)) {
                let q = choose|q: u64| span_queue_ids(evs).contains(q) && span_key(s) == #[trigger] index_key(s, be64(q));
                assert(index_key(s, be64(q))[1] == 1u8);
            } else if exists|v: Seq<u8>| span_texts(evs).contains(v) && span_key(s) == #[trigger] index_key(s, v) {
                let v = choose|v: Seq<u8>| span_texts(evs).contains(v) && span_key(s) == #[trigger] index_key(s, v);
                assert(index_key(s, v)[1] == 1u8);
            } else {
                assert(index_key(s, be16(type_code(evs[0].typ)))[1] == 1u8);
            }
        }
    }
}

/// A span whose events carry no queue id leaves the store as it was.
pub proof fn lemma_commit_without_queue_id(m: Map<Seq<u8>, Seq<u8>>, s: u64, evs: Seq<Event>)
    requires
        span_queue_ids(evs) == Set::<u64>::empty(),
    ensures
        commit_effect(m, s, evs) == m,
{
}

/// After purging at `cutoff`, no span blob key and no index key refers to a
/// span older than the cutoff, so no such span can be read back; the blob of
/// every span at or after the cutoff stays as it was.
pub proof fn lemma_purge_leaves_nothing_older(m: Map<Seq<u8>, Seq<u8>>, cutoff: u64)
    ensures
        forall|s: u64|
            s >= cutoff && m.contains_key(span_key(s)) ==> #[trigger] m.remove_keys(purged_keys(cutoff)).contains_key(span_key(s))
                && m.remove_keys(purged_keys(cutoff))[span_key(s)] == m[span_key(s)],
        forall|k: Seq<u8>| #[trigger] m.remove_keys(purged_keys(cutoff)).contains_key(k) ==> !purged_by(k, cutoff),
        forall|s: u64| s < cutoff ==> !#[trigger] m.remove_keys(purged_keys(cutoff)).contains_key(span_key(s)),
{
    assert forall|s: u64| s < cutoff implies !#[trigger] m.remove_keys(purged_keys(cutoff)).contains_key(span_key(s)) by {
        lemma_be64_round_trip(s);
        assert(span_key(s).subrange(2, 10) =~= be64(s));
        assert(span_key(s).subrange(0, 2) =~= seq![crate::tracer::SUBSPACE_TELEMETRY, crate::tracer::TAG_SPAN]);
        assert(is_span_blob_key(span_key(s)));
        assert(key_span_id(span_key(s)) == s);
        assert(purged_keys(cutoff).contains(span_key(s)));
    }
    assert forall|s: u64|
        s >= cutoff && m.contains_key(span_key(s)) implies #[trigger] m.remove_keys(purged_keys(cutoff)).contains_key(span_key(s))
            && m.remove_keys(purged_keys(cutoff))[span_key(s)] == m[span_key(s)] by {
        lemma_be64_round_trip(s);
        assert(span_key(s).subrange(2, 10) =~= be64(s));
        assert(span_key(s).subrange(span_key(s).len() - 8, span_key(s).len() as int) =~= be64(s));
        assert(key_span_id(span_key(s)) == s);
        assert(!purged_keys(cutoff).contains(span_key(s)));
    }
}

/// Two strictly descending sequences that hold the same values are equal.
pub proof fn lemma_descending_unique(a: Seq<u64>, b: Seq<u64>)
    requires
        strictly_descending(a),
        strictly_descending(b),
        a.to_set() == b.to_set(),
    ensures
        a == b,
    decreases a.len(),
{
    if a.len() == 0 {
        if b.len() > 0 {
            assert(b.to_set().contains(b[0]));
        }
    } else {
        assert(a.to_set().contains(a[0]));
        assert(b.len() > 0);
        assert(b.to_set().contains(b[0]));
        let i = choose|i: int| 0 <= i < a.len() && a[i] == b[0];
        let j = choose|j: int| 0 <= j < b.len() && b[j] == a[0];
        if i > 0 {
            assert(a[0] > a[i]);
            if j > 0 {
                assert(b[0] > b[j]);
            }
        }
        assert(a[0] == b[0]);
        let a1 = a.drop_first();
        let b1 = b.drop_first();
        assert forall|x: u64| a1.to_set().contains(x) <==> b1.to_set().contains(x) by {
            if a1.to_set().contains(x) {
                let k = choose|k: int| 0 <= k < a1.len() && a1[k] == x;
                assert(a[k + 1] == x);
                assert(b.to_set().contains(x));
                let l = choose|l: int| 0 <= l < b.len() && b[l] == x;
                assert(x < a[0]);
                assert(l != 0);
                assert(b1[l - 1] == x);
            }
            if b1.to_set().contains(x) {
                let k = choose|k: int| 0 <= k < b1.len() && b1[k] == x;
                assert(b[k + 1] == x);
                assert(a.to_set().contains(x));
                let l = choose|l: int| 0 <= l < a.len() && a[l] == x;
                assert(x < b[0]);
                assert(l != 0);
                assert(a1[l - 1] == x);
            }
        }
        assert(a1.to_set() =~= b1.to_set());
        lemma_descending_unique(a1, b1);
        assert(a =~= seq![a[0]] + a1);
        assert(b =~= seq![b[0]] + b1);
    }
}

/// The order of the predicates of a query does not change its answer: two
/// lists holding the same predicates select the same span ids, and two
/// answers that list them newest first, each once, are the same sequence.
pub proof fn lemma_query_order_irrelevant(
    m: Map<Seq<u8>, Seq<u8>>,
    ps1: Seq<TracingQuery>,
    ps2: Seq<TracingQuery>,
    from: u64,
    to: u64,
    r1: Seq<u64>,
    r2: Seq<u64>,
)
    requires
        ps1.to_set() == ps2.to_set(),
        r1.to_set() == query_ids(m, ps1, from, to),
        r2.to_set() == query_ids(m, ps2, from, to),
        strictly_descending(r1),
        strictly_descending(r2),
    ensures
        query_ids(m, ps1, from, to) == query_ids(m, ps2, from, to),
        r1 == r2,
{
    assert forall|x: TracingQuery| ps1.contains(x) <==> ps2.contains(x) by {
        assert(ps1.to_set().contains(x) == ps1.contains(x));
        assert(ps2.to_set().contains(x) == ps2.contains(x));
        assert(ps1.to_set().contains(x) <==> ps2.to_set().contains(x));
    }
    assert(ps1.len() > 0 <==> ps2.len() > 0) by {
        if ps1.len() > 0 {
            assert(ps1.contains(ps1[0]));
        }
        if ps2.len() > 0 {
            assert(ps2.contains(ps2[0]));
        }
    }
    assert forall|s: u64| query_ids(m, ps1, from, to).contains(s) <==> query_ids(m, ps2, from, to).contains(s) by {
        if query_ids(m, ps1, from, to).contains(s) {
            assert forall|i: int| 0 <= i < ps2.len() implies #[trigger] crate::query::param_ids(m, ps2[i], from, to).contains(s) by {
                assert(ps2.contains(ps2[i]));
                let j = choose|j: int| 0 <= j < ps1.len() && ps1[j] == ps2[i];
                assert(crate::query::param_ids(m, ps1[j], from, to).contains(s));
            }
        }
        if query_ids(m, ps2, from, to).contains(s) {
            assert forall|i: int| 0 <= i < ps1.len() implies #[trigger] crate::query::param_ids(m, ps1[i], from, to).contains(s) by {
                assert(ps1.contains(ps1[i]));
                let j = choose|j: int| 0 <= j < ps2.len() && ps2[j] == ps1[i];
                assert(crate::query::param_ids(m, ps2[j], from, to).contains(s));
            }
        }
    }
    assert(query_ids(m, ps1, from, to) =~= query_ids(m, ps2, from, to));
    lemma_descending_unique(r1, r2);
}

/// What a span read returns encodes back to the stored blob: when `evs` is
/// what reading span `s` decoded, and `raw` the blob read as is, encoding
/// `evs` gives `raw`.
pub proof fn lemma_span_round_trip(m: Map<Seq<u8>, Seq<u8>>, s: u64, evs: Seq<Event>, raw: Seq<u8>)
    requires
        m.contains_key(span_key(s)),
        enc_events(evs) == m[span_key(s)],
        raw == m[span_key(s)],
    ensures
        enc_events(evs) == raw,
{
}

/// A reservation written at `now` for `retention` seconds is live for its
/// account at any time before it expires, and what a listing shows of it
/// has the size, deletion time, expiry, collection and hash it was written
/// with. Writing it keeps every reservation key of the account at full
/// length, under which a listing shows each hash and expiry once.
pub proof fn lemma_reservation_listed(
    m: Map<Seq<u8>, Seq<u8>>,
    account_id: u32,
    hash: Seq<u8>,
    size: usize,
    now: u64,
    retention: u64,
    collection: u8,
    later: u64,
)
    requires
        hash.len() == 32,
        now + retention <= u64::MAX,
        later < now + retention,
    ensures
        ({
            let k = reservation_key(account_id, hash, (now + retention) as u64);
            let m2 = m.insert(k, reservation_value(size, now, collection));
            &&& m2.contains_key(k)
            &&& has_prefix(k, reservation_prefix(account_id))
            &&& is_live(k, m2[k], later)
            &&& crate::undelete::all_reservations_well_formed(m, account_id)
                ==> crate::undelete::all_reservations_well_formed(m2, account_id)
            &&& forall|e: crate::undelete::DeletedBlob<Vec<u8>, u64, u8>|
                #[trigger] entry_matches(e, k, m2[k]) ==> e.hash@ == hash && e.size == (size as u32) as usize
                    && e.deleted_at == now && e.expires_at == now + retention && e.collection == collection
        }),
{
    let until = (now + retention) as u64;
    let k = reservation_key(account_id, hash, until);
    let v = reservation_value(size, now, collection);
    assert(k.subrange(k.len() - 8, k.len() as int) =~= be64(until));
    lemma_be64_round_trip(until);
    lemma_be64_round_trip(now);
    lemma_be32_round_trip(size as u32);
    assert(k.subrange(0, 6) =~= reservation_prefix(account_id));
    assert(k.subrange(6, 38) =~= hash);
    assert(v.subrange(0, 4) =~= be32(size as u32));
    assert(v.subrange(4, 12) =~= be64(now));
}

} // verus!
