use vstd::prelude::*;

use crate::codec::{deserialize_be_u64, StoreError};
use crate::kv::{has_prefix, key_views, lemma_apply_push, apply_ops, BatchBuilder, MemoryStore};
use crate::query::key_span_id;
use crate::tracer::{SUBSPACE_TELEMETRY, TAG_INDEX, TAG_SPAN};

verus! {

/// Milliseconds from the Unix epoch to the snowflake epoch.
pub const SNOWFLAKE_EPOCH: u64 = 1632280000000;
/// Bits of a snowflake id below its timestamp: node id, then sequence.
pub const SNOWFLAKE_NODE_BITS: u64 = 10;
pub const SNOWFLAKE_SEQUENCE_BITS: u64 = 12;

/// The snowflake id of the moment `period_ms` before `now_ms`, with zero
/// node and sequence; none when that moment precedes the snowflake epoch or
/// its timestamp does not fit the 42 bits an id gives it.
pub open spec fn spec_snowflake_from_duration(now_ms: u64, period_ms: u64) -> Option<u64> {
    let elapsed = now_ms - period_ms - SNOWFLAKE_EPOCH;
    if 0 <= elapsed < 0x400_0000_0000 {
        Some((elapsed * 0x40_0000) as u64)
    } else {
        None
    }
}

/// The retention cutoff for a period, as a snowflake id.
pub fn snowflake_from_duration(now_ms: u64, period_ms: u64) -> (r: Option<u64>)
    ensures
        r == spec_snowflake_from_duration(now_ms, period_ms),
{
    if period_ms > now_ms || now_ms - period_ms < SNOWFLAKE_EPOCH {
        return None;
    }
    let elapsed = now_ms - period_ms - SNOWFLAKE_EPOCH;
    if elapsed >= 0x400_0000_0000 {
        return None;
    }
    assert(elapsed * 0x40_0000 < 0x1_0000_0000_0000_0000) by (nonlinear_arith)
        requires
            elapsed < 0x400_0000_0000,
    ;
    Some(elapsed * 0x40_0000)
}

/// The id made of a timestamp, a node id and a sequence number.
pub open spec fn snowflake_id(elapsed: u64, node: u64, sequence: u64) -> int {
    elapsed * 0x40_0000 + node * 0x1000 + sequence
}

proof fn lemma_snowflake_bounds(e: u64, n: u64, q: u64)
    requires
        e < 0x400_0000_0000,
        n < 1024,
        q < 4096,
    ensures
        0 <= snowflake_id(e, n, q) < 0x1_0000_0000_0000_0000,
        snowflake_id(e, n, q) < (e + 1) * 0x40_0000,
        snowflake_id(e, n, q) >= e * 0x40_0000,
{
    assert(e * 0x40_0000 + n * 0x1000 + q < (e + 1) * 0x40_0000) by (nonlinear_arith)
        requires
            n < 1024,
            q < 4096,
    ;
    assert((e + 1) * 0x40_0000 <= 0x1_0000_0000_0000_0000) by (nonlinear_arith)
        requires
            e < 0x400_0000_0000,
    ;
    assert(n * 0x1000 >= 0) by (nonlinear_arith)
        requires
            n < 1024,
    ;
}

proof fn lemma_snowflake_order(e1: u64, q1: u64, e2: u64, q2: u64, n: u64)
    requires
        e1 < 0x400_0000_0000,
        e2 < 0x400_0000_0000,
        n < 1024,
        q1 < 4096,
        q2 < 4096,
        e1 < e2 || (e1 == e2 && q1 < q2),
    ensures
        snowflake_id(e1, n, q1) < snowflake_id(e2, n, q2),
{
    lemma_snowflake_bounds(e1, n, q1);
    lemma_snowflake_bounds(e2, n, q2);
    if e1 < e2 {
        assert((e1 + 1) * 0x40_0000 <= e2 * 0x40_0000) by (nonlinear_arith)
            requires
                e1 < e2,
        ;
    }
}

/// Issues ids that grow with time: a millisecond timestamp counted from
/// the snowflake epoch, then the node id, then a sequence number that tells
/// apart the ids of one millisecond.
pub struct SnowflakeIdGenerator {
    pub node_id: u64,
    pub elapsed: u64,
    pub sequence: u64,
}

impl SnowflakeIdGenerator {
    pub open spec fn wf(&self) -> bool {
        self.node_id < 1024 && self.sequence < 4096 && self.elapsed < 0x400_0000_0000
    }

    /// The last id issued, or the floor below every id when none was.
    pub open spec fn last_id(&self) -> int {
        snowflake_id(self.elapsed, self.node_id, self.sequence)
    }

    pub fn new(node_id: u64) -> (r: Self)
        requires
            node_id < 1024,
        ensures
            r.wf(),
            r.node_id == node_id,
            r.elapsed == 0,
            r.sequence == 0,
    {
        SnowflakeIdGenerator { node_id, elapsed: 0, sequence: 0 }
    }

    /// The next id at time `now_ms`, greater than every id issued before.
    /// None when the clock is before the epoch or past the timestamp's range,
    /// or when this millisecond's sequence is used up (the caller waits for
    /// the clock to move on); the generator is then unchanged.
    pub fn generate(&mut self, now_ms: u64) -> (r: Option<u64>)
        requires
            old(self).wf(),
        ensures
            final(self).wf(),
            final(self).node_id == old(self).node_id,
            r matches Some(id) ==> id == final(self).last_id() && id > old(self).last_id(),
            r is None ==> *final(self) == *old(self),
            r is None <==> (now_ms < SNOWFLAKE_EPOCH || now_ms - SNOWFLAKE_EPOCH >= 0x400_0000_0000
                || (now_ms - SNOWFLAKE_EPOCH <= old(self).elapsed && old(self).sequence + 1 >= 4096)),
            r is Some && now_ms - SNOWFLAKE_EPOCH > old(self).elapsed ==> final(self).elapsed
                == now_ms - SNOWFLAKE_EPOCH && final(self).sequence == 0,
            r is Some && now_ms - SNOWFLAKE_EPOCH <= old(self).elapsed ==> final(self).elapsed
                == old(self).elapsed && final(self).sequence == old(self).sequence + 1,
    {
        if now_ms < SNOWFLAKE_EPOCH || now_ms - SNOWFLAKE_EPOCH >= 0x400_0000_0000 {
            return None;
        }
        let elapsed = now_ms - SNOWFLAKE_EPOCH;
        if elapsed > self.elapsed {
            proof {
                lemma_snowflake_order(self.elapsed, self.sequence, elapsed, 0, self.node_id);
            }
            self.elapsed = elapsed;
            self.sequence = 0;
        } else if self.sequence + 1 < 4096 {
            proof {
                lemma_snowflake_order(self.elapsed, self.sequence, self.elapsed, (self.sequence + 1) as u64, self.node_id);
            }
            self.sequence = self.sequence + 1;
        } else {
            return None;
        }
        proof {
            lemma_snowflake_bounds(self.elapsed, self.node_id, self.sequence);
        }
        Some(self.elapsed * 0x40_0000 + self.node_id * 0x1000 + self.sequence)
    }
}

/// Whether `k` is the key of a span blob.
pub open spec fn is_span_blob_key(k: Seq<u8>) -> bool {
    k.len() == 10 && has_prefix(k, seq![SUBSPACE_TELEMETRY, TAG_SPAN])
}

/// Whether `k` lies in the index region.
pub open spec fn is_index_region_key(k: Seq<u8>) -> bool {
    has_prefix(k, seq![SUBSPACE_TELEMETRY, TAG_INDEX])
}

/// Whether `k` is a span blob key or an index key of a span older than
/// `cutoff`.
pub open spec fn purged_by(k: Seq<u8>, cutoff: u64) -> bool {
    (is_span_blob_key(k) || (is_index_region_key(k) && k.len() >= 10)) && key_span_id(k) < cutoff
}

/// Whether the index region holds a key too short to end in a span id.
pub open spec fn has_short_index_key(m: Map<Seq<u8>, Seq<u8>>) -> bool {
    exists|k: Seq<u8>| m.contains_key(k) && #[trigger] is_index_region_key(k) && k.len() < 10
}

/// The span blob keys older than `cutoff`.
pub open spec fn old_span_keys(cutoff: u64) -> Set<Seq<u8>> {
    Set::new(|k: Seq<u8>| is_span_blob_key(k) && key_span_id(k) < cutoff)
}

/// The keys that purging at `cutoff` removes.
pub open spec fn purged_keys(cutoff: u64) -> Set<Seq<u8>> {
    Set::new(|k: Seq<u8>| purged_by(k, cutoff))
}

impl MemoryStore {
    /// Removes every key of `keys`, in batches that never grow past
    /// `LARGE_BATCH` writes.
    fn clear_keys(&mut self, keys: &Vec<Vec<u8>>)
        requires
            old(self).wf(),
        ensures
            final(self).wf(),
            final(self)@ == old(self)@.remove_keys(key_views(keys@).to_set()),
    {
        let ghost start = self@;
        let mut batch = BatchBuilder::new();
        let mut i: usize = 0;
        while i < keys.len()
            invariant
                i <= keys@.len(),
                self.wf(),
                apply_ops(self@, batch.ops@) == start.remove_keys(
                    key_views(keys@.subrange(0, i as int)).to_set(),
                ),
            decreases keys@.len() - i,
        {
            if batch.is_large_batch() {
                self.write(batch);
                batch = BatchBuilder::new();
            }
            let ghost ops0 = batch.ops@;
            batch.clear(keys[i].clone());
            proof {
                lemma_apply_push(self@, ops0, batch.ops@.last());
                assert(batch.ops@ == ops0.push(batch.ops@.last()));
                key_views(keys@.subrange(0, i as int)).lemma_push_to_set_commute(keys@[i as int]@);
                assert(key_views(keys@.subrange(0, i + 1)) =~= key_views(keys@.subrange(0, i as int)).push(
                    keys@[i as int]@,
                ));
                assert(start.remove_keys(key_views(keys@.subrange(0, i as int)).to_set()).remove(
                    keys@[i as int]@,
                ) =~= start.remove_keys(key_views(keys@.subrange(0, i + 1)).to_set()));
            }
            i = i + 1;
        }
        if !batch.is_empty() {
            self.write(batch);
        } else {
            assert(apply_ops(self@, batch.ops@) == self@);
        }
        assert(keys@.subrange(0, keys@.len() as int) =~= keys@);
    }

    /// Deletes the span blobs and index keys of every span older than
    /// `cutoff`. Span blobs go first; then, when an index key is too short to
    /// end in a span id, the call fails with `CorruptKey` and leaves the index
    /// as it was.
    pub fn purge_spans_before(&mut self, cutoff: u64) -> (r: Result<(), StoreError>)
        requires
            old(self).wf(),
        ensures
            final(self).wf(),
            r is Ok <==> !has_short_index_key(old(self)@),
            r is Ok ==> final(self)@ == old(self)@.remove_keys(purged_keys(cutoff)),
            r matches Err(e) ==> e == StoreError::CorruptKey && final(self)@ == old(self)@.remove_keys(
                old_span_keys(cutoff),
            ),
    {
        let ghost m0 = self@;
        let span_prefix: Vec<u8> = vec![SUBSPACE_TELEMETRY, TAG_SPAN];
        let span_keys = self.keys_with_prefix(span_prefix.as_slice());
        let mut doomed: Vec<Vec<u8>> = Vec::new();
        let mut i: usize = 0;
        while i < span_keys.len()
            invariant
                i <= span_keys@.len(),
                m0 == old(self)@,
                m0 == self@,
                self.wf(),
                span_prefix@ == seq![SUBSPACE_TELEMETRY, TAG_SPAN],
                forall|k: Seq<u8>|
                    #[trigger] key_views(span_keys@).contains(k) <==> (m0.contains_key(k) && has_prefix(k, span_prefix@)),
                forall|k: Seq<u8>|
                    #[trigger] key_views(doomed@).contains(k) <==> exists|t: int|
                        0 <= t < i && #[trigger] span_keys@[t]@ == k && is_span_blob_key(k) && key_span_id(k) < cutoff,
            decreases span_keys@.len() - i,
        {
            let k = &span_keys[i];
            assert(key_views(span_keys@)[i as int] == k@);
            let ghost d0 = key_views(doomed@);
            if k.len() == 10 {
                let id = match deserialize_be_u64(k.as_slice(), 2) {
                    Ok(id) => id,
                    Err(e) => return Err(e),
                };
                assert(k@.subrange(2, 10) == k@.subrange(k@.len() - 8, k@.len() as int));
                if id < cutoff {
                    assert(key_views(span_keys@).contains(k@));
                    doomed.push(k.clone());
                    assert(key_views(doomed@) =~= d0.push(k@));
                }
            }
            i = i + 1;
            assert forall|kk: Seq<u8>|
                #[trigger] key_views(doomed@).contains(kk) <==> exists|t: int|
                    0 <= t < i && #[trigger] span_keys@[t]@ == kk && is_span_blob_key(kk) && key_span_id(kk) < cutoff by {
                if key_views(doomed@).contains(kk) && !d0.contains(kk) {
                    assert(span_keys@[i - 1]@ == kk);
                }
                if exists|t: int| 0 <= t < i && #[trigger] span_keys@[t]@ == kk && is_span_blob_key(kk) && key_span_id(kk) < cutoff {
                    let t = choose|t: int| 0 <= t < i && #[trigger] span_keys@[t]@ == kk && is_span_blob_key(kk) && key_span_id(kk) < cutoff;
                    if t < i - 1 {
                        assert(d0.contains(kk));
                        let x = choose|x: int| 0 <= x < d0.len() && d0[x] == kk;
                        assert(key_views(doomed@)[x] == kk);
                    } else {
                        assert(key_views(doomed@).last() == kk);
                    }
                }
            }
        }
        self.clear_keys(&doomed);
        proof {
            assert forall|k: Seq<u8>| m0.contains_key(k) implies (key_views(doomed@).to_set().contains(k) <==> old_span_keys(cutoff).contains(k)) by {
                if is_span_blob_key(k) && key_span_id(k) < cutoff {
                    assert(key_views(span_keys@).contains(k));
                    let t = choose|t: int| 0 <= t < key_views(span_keys@).len() && key_views(span_keys@)[t] == k;
                    assert(span_keys@[t]@ == k);
                }
            }
            assert(self@ =~= m0.remove_keys(old_span_keys(cutoff)));
        }
        let ghost m1 = self@;
        let index_prefix: Vec<u8> = vec![SUBSPACE_TELEMETRY, TAG_INDEX];
        let index_keys = self.keys_with_prefix(index_prefix.as_slice());
        let mut doomed: Vec<Vec<u8>> = Vec::new();
        let mut i: usize = 0;
        while i < index_keys.len()
            invariant
                i <= index_keys@.len(),
                m1 == self@,
                m0 == old(self)@,
                m1 == m0.remove_keys(old_span_keys(cutoff)),
                self.wf(),
                index_prefix@ == seq![SUBSPACE_TELEMETRY, TAG_INDEX],
                forall|k: Seq<u8>|
                    #[trigger] key_views(index_keys@).contains(k) <==> (m1.contains_key(k) && has_prefix(k, index_prefix@)),
                forall|t: int| 0 <= t < i ==> (#[trigger] index_keys@[t])@.len() >= 10,
                forall|k: Seq<u8>|
                    #[trigger] key_views(doomed@).contains(k) <==> exists|t: int|
                        0 <= t < i && #[trigger] index_keys@[t]@ == k && key_span_id(k) < cutoff,
            decreases index_keys@.len() - i,
        {
            let k = &index_keys[i];
            assert(key_views(index_keys@)[i as int] == k@);
            assert(key_views(index_keys@).contains(k@));
            let ghost d0 = key_views(doomed@);
            if k.len() < 10 {
                proof {
                    assert(is_index_region_key(k@));
                    assert(m0.contains_key(k@));
                }
                return Err(StoreError::CorruptKey);
            }
            let id = match deserialize_be_u64(k.as_slice(), k.len() - 8) {
                Ok(id) => id,
                Err(e) => return Err(e),
            };
            if id < cutoff {
                doomed.push(k.clone());
                assert(key_views(doomed@) =~= d0.push(k@));
            }
            i = i + 1;
            assert forall|kk: Seq<u8>|
                #[trigger] key_views(doomed@).contains(kk) <==> exists|t: int|
                    0 <= t < i && #[trigger] index_keys@[t]@ == kk && key_span_id(kk) < cutoff by {
                if key_views(doomed@).contains(kk) && !d0.contains(kk) {
                    assert(index_keys@[i - 1]@ == kk);
                }
                if exists|t: int| 0 <= t < i && #[trigger] index_keys@[t]@ == kk && key_span_id(kk) < cutoff {
                    let t = choose|t: int| 0 <= t < i && #[trigger] index_keys@[t]@ == kk && key_span_id(kk) < cutoff;
                    if t < i - 1 {
                        assert(d0.contains(kk));
                        let x = choose|x: int| 0 <= x < d0.len() && d0[x] == kk;
                        assert(key_views(doomed@)[x] == kk);
                    } else {
                        assert(key_views(doomed@).last() == kk);
                    }
                }
            }
        }
        proof {
            if has_short_index_key(m0) {
                let k = choose|k: Seq<u8>| m0.contains_key(k) && #[trigger] is_index_region_key(k) && k.len() < 10;
                assert(!is_span_blob_key(k));
                assert(m1.contains_key(k));
                assert(key_views(index_keys@).contains(k));
                let t = choose|t: int| 0 <= t < key_views(index_keys@).len() && key_views(index_keys@)[t] == k;
                assert(index_keys@[t]@ == k);
            }
        }
        self.clear_keys(&doomed);
        proof {
            assert forall|k: Seq<u8>| m1.contains_key(k) implies (key_views(doomed@).to_set().contains(k) <==> (is_index_region_key(k) && k.len() >= 10 && key_span_id(k) < cutoff)) by {
                if is_index_region_key(k) && k.len() >= 10 && key_span_id(k) < cutoff {
                    assert(key_views(index_keys@).contains(k));
                    let t = choose|t: int| 0 <= t < key_views(index_keys@).len() && key_views(index_keys@)[t] == k;
                    assert(index_keys@[t]@ == k);
                }
                if key_views(doomed@).to_set().contains(k) {
                    let t = choose|t: int| 0 <= t < i && #[trigger] index_keys@[t]@ == k && key_span_id(k) < cutoff;
                    assert(key_views(index_keys@)[t] == k);
                    assert(key_views(index_keys@).contains(k));
                }
            }
            assert(self@ =~= m0.remove_keys(purged_keys(cutoff)));
        }
        Ok(())
    }

    /// Deletes every span older than `period_ms` at time `now_ms`; fails with
    /// `UnexpectedError` when no cutoff can be derived for that period.
    pub fn purge_spans(&mut self, now_ms: u64, period_ms: u64) -> (r: Result<(), StoreError>)
        requires
            old(self).wf(),
        ensures
            final(self).wf(),
            spec_snowflake_from_duration(now_ms, period_ms) is None ==> r == Err::<(), StoreError>(
                StoreError::UnexpectedError,
            ) && final(self)@ == old(self)@,
            spec_snowflake_from_duration(now_ms, period_ms) matches Some(cutoff) ==> ((r is Ok
                <==> !has_short_index_key(old(self)@)) && (r is Ok ==> final(self)@ == old(
                self,
            )@.remove_keys(purged_keys(cutoff))) && (r is Err ==> r == Err::<(), StoreError>(
                StoreError::CorruptKey,
            ) && final(self)@ == old(self)@.remove_keys(old_span_keys(cutoff)))),
    {
        match snowflake_from_duration(now_ms, period_ms) {
            Some(cutoff) => self.purge_spans_before(cutoff),
            None => Err(StoreError::UnexpectedError),
        }
    }
}

} // verus!
