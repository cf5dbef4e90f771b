use vstd::prelude::*;

use crate::codec::{be32, be32_value, be64, be64_value, StoreError, KeySerializer};
use crate::kv::{has_prefix, key_views, lex_lt, BatchBuilder, BatchOp, MemoryStore};

verus! {

/// The subspace that holds blob bookkeeping.
pub const SUBSPACE_BLOBS: u8 = 98;
/// The tag of reservation keys within the blob subspace.
pub const TAG_RESERVE: u8 = 2;
/// The length of a blob hash.
pub const BLOB_HASH_LEN: usize = 32;
/// The length of a reservation value: size, deletion time, collection.
pub const RESERVATION_VALUE_LEN: usize = 13;

/// A blob kept past its deletion, as listed for its account.
#[derive(Debug, Clone)]
pub struct DeletedBlob<H, T, C> {
    pub hash: H,
    pub size: usize,
    pub deleted_at: T,
    pub expires_at: T,
    pub collection: C,
}

/// The prefix of every reservation key of an account.
pub open spec fn reservation_prefix(account_id: u32) -> Seq<u8> {
    seq![SUBSPACE_BLOBS, TAG_RESERVE] + be32(account_id)
}

/// The key of the reservation of blob `hash` for `account_id` until `until`.
pub open spec fn reservation_key(account_id: u32, hash: Seq<u8>, until: u64) -> Seq<u8> {
    reservation_prefix(account_id) + hash + be64(until)
}

/// The value of a reservation: size, deletion time, collection.
pub open spec fn reservation_value(size: usize, deleted_at: u64, collection: u8) -> Seq<u8> {
    be32(size as u32) + be64(deleted_at) + seq![collection]
}

/// The expiry time in the last eight bytes of a reservation key.
pub open spec fn key_expiry(k: Seq<u8>) -> u64 {
    be64_value(k.subrange(k.len() - 8, k.len() as int))
}

/// Whether a reservation is listed at time `now`: its value has the
/// expected length and it has not expired.
pub open spec fn is_live(k: Seq<u8>, v: Seq<u8>, now: u64) -> bool {
    k.len() >= 14 && v.len() == 13 && key_expiry(k) > now
}

/// What a listing shows of a live reservation.
pub open spec fn entry_matches(e: DeletedBlob<Vec<u8>, u64, u8>, k: Seq<u8>, v: Seq<u8>) -> bool {
    &&& e.hash@ == k.subrange(6, 38)
    &&& e.size == be32_value(v.subrange(0, 4)) as usize
    &&& e.deleted_at == be64_value(v.subrange(4, 12))
    &&& e.expires_at == key_expiry(k)
    &&& e.collection == v[12]
}

/// Whether `e` is what a listing shows of some live reservation of the
/// account.
pub open spec fn is_listed_entry(
    m: Map<Seq<u8>, Seq<u8>>,
    account_id: u32,
    now: u64,
    e: DeletedBlob<Vec<u8>, u64, u8>,
) -> bool {
    exists|k: Seq<u8>|
        m.contains_key(k) && #[trigger] has_prefix(k, reservation_prefix(account_id)) && is_live(
            k,
            m[k],
            now,
        ) && entry_matches(e, k, m[k])
}

/// Whether `ks` are keys of live reservations of the account, in strictly
/// ascending byte order, and `v` shows them one for one.
pub open spec fn listed_from_keys(
    m: Map<Seq<u8>, Seq<u8>>,
    account_id: u32,
    now: u64,
    v: Seq<DeletedBlob<Vec<u8>, u64, u8>>,
    ks: Seq<Seq<u8>>,
) -> bool {
    &&& ks.len() == v.len()
    &&& forall|a: int, b: int| 0 <= a < b < ks.len() ==> lex_lt(ks[a], ks[b])
    &&& forall|a: int|
        0 <= a < ks.len() ==> m.contains_key(#[trigger] ks[a]) && has_prefix(ks[a], reservation_prefix(account_id))
            && is_live(ks[a], m[ks[a]], now) && entry_matches(v[a], ks[a], m[ks[a]])
}

/// Whether every reservation key of the account has the full length of
/// prefix, hash and expiry.
pub open spec fn all_reservations_well_formed(m: Map<Seq<u8>, Seq<u8>>, account_id: u32) -> bool {
    forall|k: Seq<u8>|
        m.contains_key(k) && #[trigger] has_prefix(k, reservation_prefix(account_id)) ==> k.len() == 46
}

/// Two well-formed reservation keys of one account that show the same hash
/// and expiry are the same key.
proof fn lemma_entry_determines_key(k1: Seq<u8>, k2: Seq<u8>, account_id: u32, e1: DeletedBlob<Vec<u8>, u64, u8>, e2: DeletedBlob<Vec<u8>, u64, u8>, v1: Seq<u8>, v2: Seq<u8>)
    requires
        k1.len() == 46,
        k2.len() == 46,
        has_prefix(k1, reservation_prefix(account_id)),
        has_prefix(k2, reservation_prefix(account_id)),
        entry_matches(e1, k1, v1),
        entry_matches(e2, k2, v2),
        e1.hash@ == e2.hash@,
        e1.expires_at == e2.expires_at,
    ensures
        k1 == k2,
{
    crate::codec::lemma_be64_bytes(k1.subrange(38, 46));
    crate::codec::lemma_be64_bytes(k2.subrange(38, 46));
    assert(k1 =~= k1.subrange(0, 6) + k1.subrange(6, 38) + k1.subrange(38, 46));
    assert(k2 =~= k2.subrange(0, 6) + k2.subrange(6, 38) + k2.subrange(38, 46));
}

/// Whether some element of `results` shows the reservation `k` with value
/// `v`.
pub open spec fn has_entry_for(results: Seq<DeletedBlob<Vec<u8>, u64, u8>>, k: Seq<u8>, v: Seq<u8>) -> bool {
    exists|a: int| 0 <= a < results.len() && entry_matches(results[a], k, v)
}

/// Whether a reservation key is corrupt: too short to hold an expiry after
/// the account prefix, or, for a live reservation, too short to hold a hash.
pub open spec fn is_short_reservation(k: Seq<u8>, v: Seq<u8>, now: u64) -> bool {
    k.len() < 14 || (is_live(k, v, now) && k.len() < 38)
}

/// Whether some reservation key of the account is corrupt.
pub open spec fn has_short_reservation(m: Map<Seq<u8>, Seq<u8>>, account_id: u32, now: u64) -> bool {
    exists|k: Seq<u8>|
        m.contains_key(k) && #[trigger] has_prefix(k, reservation_prefix(account_id))
            && is_short_reservation(k, m[k], now)
}

/// The part of the server configuration that blob retention reads.
pub struct Core {
    /// How long, in seconds, a deleted blob stays recoverable; none when
    /// deleted blobs are not kept.
    pub undelete_retention: Option<u64>,
}

impl Core {
    /// Keeps a deleted blob recoverable: when a retention period is
    /// configured, adds to `batch` a reservation of `blob_hash` for
    /// `account_id` until `now` plus that period, whose value records the
    /// size, the time of deletion and the collection.
    pub fn hold_undelete(
        &self,
        batch: &mut BatchBuilder,
        account_id: u32,
        collection: u8,
        blob_hash: &[u8],
        blob_size: usize,
        now: u64,
    )
        requires
            self.undelete_retention matches Some(r) ==> now + r <= u64::MAX,
        ensures
            self.undelete_retention is None ==> final(batch).ops@ == old(batch).ops@,
            self.undelete_retention matches Some(r) ==> {
                &&& final(batch).ops@.len() == old(batch).ops@.len() + 1
                &&& final(batch).ops@.subrange(0, old(batch).ops@.len() as int) == old(batch).ops@
                &&& final(batch).ops@.last() matches BatchOp::Put { key, value } && key@
                    == reservation_key(account_id, blob_hash@, (now + r) as u64) && value@
                    == reservation_value(blob_size, now, collection)
            },
    {
        if let Some(retention) = self.undelete_retention {
            let key = KeySerializer::new(46).write_u8(SUBSPACE_BLOBS).write_u8(TAG_RESERVE).write_u32(
                account_id,
            ).write_bytes(blob_hash).write_u64(now + retention).finalize();
            let value = KeySerializer::new(13).write_u32(blob_size as u32).write_u64(now).write_u8(
                collection,
            ).finalize();
            assert(key@ =~= reservation_key(account_id, blob_hash@, (now + retention) as u64));
            assert(value@ =~= reservation_value(blob_size, now, collection));
            let ghost before = batch.ops@;
            batch.set(key, value);
            assert(batch.ops@.subrange(0, before.len() as int) =~= before);
        }
    }

    /// The reservations of `account_id` that are live at `now`, each once.
    /// Fails with `CorruptKey` when a reservation key of the account is too
    /// short to hold an expiry, or a live one too short to hold a blob hash.
    pub fn list_deleted(&self, store: &MemoryStore, account_id: u32, now: u64) -> (r: Result<
        Vec<DeletedBlob<Vec<u8>, u64, u8>>,
        StoreError,
    >)
        requires
            store.wf(),
        ensures
            r is Ok <==> !has_short_reservation(store@, account_id, now),
            r matches Ok(v) ==> forall|i: int|
                0 <= i < v@.len() ==> #[trigger] is_listed_entry(store@, account_id, now, v@[i]),
            r matches Ok(v) ==> forall|k: Seq<u8>|
                store@.contains_key(k) && #[trigger] has_prefix(k, reservation_prefix(account_id))
                    && is_live(k, store@[k], now) ==> has_entry_for(v@, k, store@[k]),
            r matches Err(e) ==> e == StoreError::CorruptKey,
    {
        let prefix = KeySerializer::new(6).write_u8(SUBSPACE_BLOBS).write_u8(TAG_RESERVE).write_u32(
            account_id,
        ).finalize();
        assert(prefix@ =~= reservation_prefix(account_id));
        let keys = store.keys_with_prefix(prefix.as_slice());
        let mut results: Vec<DeletedBlob<Vec<u8>, u64, u8>> = Vec::new();
        let ghost mut src: Seq<int> = Seq::empty();
        let ghost wf_keys = all_reservations_well_formed(store@, account_id);
        let mut i: usize = 0;
        while i < keys.len()
            invariant
                i <= keys@.len(),
                store.wf(),
                prefix@ == reservation_prefix(account_id),
                forall|k: Seq<u8>|
                    #[trigger] key_views(keys@).contains(k) <==> (store@.contains_key(k) && has_prefix(k, prefix@)),
                forall|a: int|
                    0 <= a < results@.len() ==> #[trigger] is_listed_entry(store@, account_id, now, results@[a]),
                forall|t: int|
                    0 <= t < i && #[trigger] is_live(keys@[t]@, store@[keys@[t]@], now) ==> has_entry_for(
                        results@,
                        keys@[t]@,
                        store@[keys@[t]@],
                    ),
                forall|t: int|
                    0 <= t < i && #[trigger] is_live(keys@[t]@, store@[keys@[t]@], now) ==> keys@[t]@.len() >= 38,
                forall|t: int| 0 <= t < i ==> (#[trigger] keys@[t])@.len() >= 14,
                src.len() == results@.len(),
                key_views(keys@).no_duplicates(),
                wf_keys == all_reservations_well_formed(store@, account_id),
                forall|a: int| 0 <= a < src.len() ==> 0 <= #[trigger] src[a] < i,
                forall|a: int, b: int| 0 <= a < b < src.len() ==> src[a] < src[b],
                forall|a: int| 0 <= a < src.len() ==> entry_matches(results@[a], #[trigger] keys@[src[a]]@, store@[keys@[src[a]]@])
                    && has_prefix(keys@[src[a]]@, reservation_prefix(account_id)) && store@.contains_key(keys@[src[a]]@)
                    && is_live(keys@[src[a]]@, store@[keys@[src[a]]@], now),
                forall|a: int, b: int| 0 <= a < b < keys@.len() ==> lex_lt(keys@[a]@, keys@[b]@),
                wf_keys ==> forall|a: int, b: int|
                    0 <= a < b < results@.len() ==> (results@[a].hash@, results@[a].expires_at) != (results@[b].hash@, results@[b].expires_at),
            decreases keys@.len() - i,
        {
            let k = &keys[i];
            let ghost r_before = results@;
            assert(key_views(keys@)[i as int] == k@);
            assert(key_views(keys@).contains(k@));
            let value = match store.get_value(k.as_slice()) {
                Some(v) => v,
                None => return Err(StoreError::CorruptKey),
            };
            if k.len() < 14 {
                assert(has_short_reservation(store@, account_id, now)) by {
                    assert(has_prefix(k@, reservation_prefix(account_id)));
                }
                return Err(StoreError::CorruptKey);
            } else {
                let expires_at = match crate::codec::deserialize_be_u64(k.as_slice(), k.len() - 8) {
                    Ok(x) => x,
                    Err(e) => return Err(e),
                };
                if value.len() == RESERVATION_VALUE_LEN && expires_at > now {
                    if k.len() < 6 + BLOB_HASH_LEN {
                        assert(has_short_reservation(store@, account_id, now)) by {
                            assert(has_prefix(k@, reservation_prefix(account_id)));
                        }
                        return Err(StoreError::CorruptKey);
                    }
                    let mut hash: Vec<u8> = Vec::new();
                    let mut h: usize = 6;
                    while h < 6 + BLOB_HASH_LEN
                        invariant
                            6 <= h <= 38 <= k@.len(),
                            hash@ == k@.subrange(6, h as int),
                        decreases 38 - h,
                    {
                        hash.push(k[h]);
                        h = h + 1;
                        assert(hash@ =~= k@.subrange(6, h as int));
                    }
                    let size = match crate::codec::deserialize_be_u32(value.as_slice(), 0) {
                        Ok(x) => x,
                        Err(e) => return Err(e),
                    };
                    let deleted_at = match crate::codec::deserialize_be_u64(value.as_slice(), 4) {
                        Ok(x) => x,
                        Err(e) => return Err(e),
                    };
                    let e = DeletedBlob {
                        hash,
                        size: size as usize,
                        deleted_at,
                        expires_at,
                        collection: value[12],
                    };
                    assert(entry_matches(e, k@, store@[k@]));
                    assert(has_prefix(k@, reservation_prefix(account_id)));
                    let ghost r0 = results@;
                    proof {
                        if wf_keys {
                            assert forall|a: int| 0 <= a < results@.len() implies (results@[a].hash@, results@[a].expires_at) != (e.hash@, e.expires_at) by {
                                let ka = keys@[src[a]]@;
                                if (results@[a].hash@, results@[a].expires_at) == (e.hash@, e.expires_at) {
                                    assert(ka.len() == 46);
                                    assert(k@.len() == 46);
                                    lemma_entry_determines_key(ka, k@, account_id, results@[a], e, store@[ka], store@[k@]);
                                    assert(key_views(keys@)[src[a]] == key_views(keys@)[i as int]);
                                }
                            }
                        }
                        src = src.push(i as int);
                    }
                    results.push(e);
                    assert(entry_matches(results@[results@.len() - 1], k@, store@[k@]));
                    assert(is_listed_entry(store@, account_id, now, e));
                    assert forall|a: int| 0 <= a < results@.len() implies #[trigger] is_listed_entry(store@, account_id, now, results@[a]) by {
                        if a < r0.len() {
                            assert(results@[a] == r0[a]);
                        }
                    }
                    assert forall|a: int| 0 <= a < src.len() implies entry_matches(results@[a], #[trigger] keys@[src[a]]@, store@[keys@[src[a]]@])
                        && has_prefix(keys@[src[a]]@, reservation_prefix(account_id)) && store@.contains_key(keys@[src[a]]@)
                        && is_live(keys@[src[a]]@, store@[keys@[src[a]]@], now) by {
                        if a < r0.len() {
                            assert(results@[a] == r0[a]);
                        }
                    }
                }
            }
            proof {
                assert forall|t: int|
                    0 <= t < i + 1 && #[trigger] is_live(keys@[t]@, store@[keys@[t]@], now) implies has_entry_for(
                        results@,
                        keys@[t]@,
                        store@[keys@[t]@],
                    ) by {
                    if t < i {
                        assert(has_entry_for(r_before, keys@[t]@, store@[keys@[t]@]));
                        let a = choose|a: int| 0 <= a < r_before.len() && entry_matches(r_before[a], keys@[t]@, store@[keys@[t]@]);
                        assert(results@[a] == r_before[a]);
                    } else {
                        assert(entry_matches(results@[results@.len() - 1], keys@[t]@, store@[keys@[t]@]));
                    }
                }
            }
            i = i + 1;
        }
        proof {
            assert forall|k: Seq<u8>|
                store@.contains_key(k) && #[trigger] has_prefix(k, reservation_prefix(account_id))
                    && is_live(k, store@[k], now) implies has_entry_for(results@, k, store@[k]) by {
                assert(key_views(keys@).contains(k));
                let t = choose|t: int| 0 <= t < key_views(keys@).len() && key_views(keys@)[t] == k;
                assert(keys@[t]@ == k);
                assert(is_live(keys@[t]@, store@[keys@[t]@], now));
            }
            if has_short_reservation(store@, account_id, now) {
                let k = choose|k: Seq<u8>|
                    store@.contains_key(k) && #[trigger] has_prefix(k, reservation_prefix(account_id))
                        && is_short_reservation(k, store@[k], now);
                assert(key_views(keys@).contains(k));
                let t = choose|t: int| 0 <= t < key_views(keys@).len() && key_views(keys@)[t] == k;
                assert(keys@[t]@ == k);
                assert(keys@[t]@.len() >= 14);
                if is_live(k, store@[k], now) {
                    assert(is_live(keys@[t]@, store@[keys@[t]@], now));
                }
            }
            let ks = Seq::new(src.len(), |a: int| keys@[src[a]]@);
            assert forall|a: int, b: int| 0 <= a < b < ks.len() implies lex_lt(ks[a], ks[b]) by {
                assert(src[a] < src[b]);
            }
            assert forall|a: int|
                0 <= a < ks.len() implies store@.contains_key(#[trigger] ks[a]) && has_prefix(ks[a], reservation_prefix(account_id))
                    && is_live(ks[a], store@[ks[a]], now) && entry_matches(results@[a], ks[a], store@[ks[a]]) by {
                assert(ks[a] == keys@[src[a]]@);
            }
            assert(listed_from_keys(store@, account_id, now, results@, ks));
        }
        Ok(results)
    }
}

} // verus!
