use vstd::prelude::*;

use crate::codec::{bytes_eq, starts_with};

verus! {

broadcast use vstd::seq_lib::group_to_multiset_ensures;

/// One write of a batch: set a key to a value, or clear it.
pub enum BatchOp {
    Put { key: Vec<u8>, value: Vec<u8> },
    Clear { key: Vec<u8> },
}

impl BatchOp {
    pub open spec fn key_view(&self) -> Seq<u8> {
        match self {
            BatchOp::Put { key, .. } => key@,
            BatchOp::Clear { key } => key@,
        }
    }
}

/// The contents of a store after applying `ops` in order to `m`.
pub open spec fn apply_ops(m: Map<Seq<u8>, Seq<u8>>, ops: Seq<BatchOp>) -> Map<Seq<u8>, Seq<u8>>
    decreases ops.len(),
{
    if ops.len() == 0 {
        m
    } else {
        let m0 = apply_ops(m, ops.drop_last());
        match ops.last() {
            BatchOp::Put { key, value } => m0.insert(key@, value@),
            BatchOp::Clear { key } => m0.remove(key@),
        }
    }
}

/// Applying one more write changes the outcome by that write alone.
pub proof fn lemma_apply_push(m: Map<Seq<u8>, Seq<u8>>, ops: Seq<BatchOp>, op: BatchOp)
    ensures
        apply_ops(m, ops.push(op)) == match op {
            BatchOp::Put { key, value } => apply_ops(m, ops).insert(key@, value@),
            BatchOp::Clear { key } => apply_ops(m, ops).remove(key@),
        },
{
    assert(ops.push(op).drop_last() =~= ops);
}

/// A sequence of writes that a store applies atomically.
pub struct BatchBuilder {
    pub ops: Vec<BatchOp>,
}

impl BatchBuilder {
    pub fn new() -> (r: Self)
        ensures
            r.ops@ == Seq::<BatchOp>::empty(),
    {
        BatchBuilder { ops: Vec::new() }
    }

    pub fn set(&mut self, key: Vec<u8>, value: Vec<u8>)
        ensures
            final(self).ops@ == old(self).ops@.push(BatchOp::Put { key, value }),
    {
        self.ops.push(BatchOp::Put { key, value });
    }

    pub fn clear(&mut self, key: Vec<u8>)
        ensures
            final(self).ops@ == old(self).ops@.push(BatchOp::Clear { key }),
    {
        self.ops.push(BatchOp::Clear { key });
    }

    pub fn is_empty(&self) -> (r: bool)
        ensures
            r == (self.ops@.len() == 0),
    {
        self.ops.len() == 0
    }

    /// Whether the batch has grown past the size at which it is written out.
    pub fn is_large_batch(&self) -> (r: bool)
        ensures
            r == (self.ops@.len() >= LARGE_BATCH),
    {
        self.ops.len() >= LARGE_BATCH
    }
}

/// The number of writes at which a batch counts as large.
pub const LARGE_BATCH: usize = 1000;

/// A key-value store held in memory. Writes come in atomic batches; scans
/// by prefix return keys in ascending byte order.
pub struct MemoryStore {
    entries: Vec<(Vec<u8>, Vec<u8>)>,
    contents: Ghost<Map<Seq<u8>, Seq<u8>>>,
}

impl MemoryStore {
    /// What the store holds: a value for each key.
    pub closed spec fn view(&self) -> Map<Seq<u8>, Seq<u8>> {
        self.contents@
    }

    /// The entries hold each key once and agree with the view.
    pub closed spec fn wf(&self) -> bool {
        &&& forall|i: int|
            0 <= i < self.entries@.len() ==> {
                &&& #[trigger] self.contents@.contains_key(self.entries@[i].0@)
                &&& self.contents@[self.entries@[i].0@] == self.entries@[i].1@
            }
        &&& forall|k: Seq<u8>|
            #[trigger] self.contents@.contains_key(k) ==> exists|i: int|
                0 <= i < self.entries@.len() && self.entries@[i].0@ == k
        &&& forall|i: int, j: int|
            0 <= i < self.entries@.len() && 0 <= j < self.entries@.len() && i != j
                ==> self.entries@[i].0@ != self.entries@[j].0@
    }

    pub fn new() -> (r: Self)
        ensures
            r.wf(),
            r@ == Map::<Seq<u8>, Seq<u8>>::empty(),
    {
        MemoryStore { entries: Vec::new(), contents: Ghost(Map::empty()) }
    }

    fn find(&self, key: &[u8]) -> (r: Option<usize>)
        requires
            self.wf(),
        ensures
            match r {
                Some(i) => i < self.entries@.len() && self.entries@[i as int].0@ == key@,
                None => !self@.contains_key(key@),
            },
    {
        let mut i: usize = 0;
        while i < self.entries.len()
            invariant
                i <= self.entries@.len(),
                forall|j: int| 0 <= j < i ==> self.entries@[j].0@ != key@,
            decreases self.entries@.len() - i,
        {
            if bytes_eq(self.entries[i].0.as_slice(), key) {
                return Some(i);
            }
            i = i + 1;
        }
        None
    }

    /// The value stored under `key`, if any.
    pub fn get_value(&self, key: &[u8]) -> (r: Option<Vec<u8>>)
        requires
            self.wf(),
        ensures
            r.is_some() == self@.contains_key(key@),
            r.is_some() ==> r.unwrap()@ == self@[key@],
    {
        match self.find(key) {
            Some(i) => {
                assert(self@.contains_key(self.entries@[i as int].0@));
                let v = self.entries[i].1.clone();
                assert(v@ == self.entries@[i as int].1@);
                Some(v)
            },
            None => None,
        }
    }

    fn set_one(&mut self, key: Vec<u8>, value: Vec<u8>)
        requires
            old(self).wf(),
        ensures
            final(self).wf(),
            final(self)@ == old(self)@.insert(key@, value@),
    {
        let ghost m = self.contents@.insert(key@, value@);
        match self.find(key.as_slice()) {
            Some(i) => {
                let ghost old_entries = self.entries@;
                self.entries.set(i, (key, value));
                self.contents = Ghost(m);
                assert forall|j: int| 0 <= j < self.entries@.len() && j != i implies self.entries@[j]
                    == old_entries[j] by {}
                assert forall|j: int| 0 <= j < self.entries@.len() implies {
                    &&& #[trigger] m.contains_key(self.entries@[j].0@)
                    &&& m[self.entries@[j].0@] == self.entries@[j].1@
                } by {
                    if j != i {
                        assert(old_entries[j].0@ != key@);
                    }
                }
                assert forall|k: Seq<u8>| #[trigger] m.contains_key(k) implies exists|j: int|
                    0 <= j < self.entries@.len() && self.entries@[j].0@ == k by {
                    if k != self.entries@[i as int].0@ {
                        let j = choose|j: int|
                            0 <= j < old_entries.len() && old_entries[j].0@ == k;
                        assert(self.entries@[j].0@ == k);
                    }
                }
            },
            None => {
                let ghost old_entries = self.entries@;
                self.entries.push((key, value));
                self.contents = Ghost(m);
                assert forall|j: int| 0 <= j < old_entries.len() implies self.entries@[j]
                    == old_entries[j] by {}
                assert forall|j: int| 0 <= j < self.entries@.len() implies {
                    &&& #[trigger] m.contains_key(self.entries@[j].0@)
                    &&& m[self.entries@[j].0@] == self.entries@[j].1@
                } by {
                    if j < old_entries.len() {
                        assert(old_entries[j].0@ != key@) by {
                            assert(self.contents@.contains_key(old_entries[j].0@) || old_entries[j].0@ != key@);
                        }
                    }
                }
                assert forall|k: Seq<u8>| #[trigger] m.contains_key(k) implies exists|j: int|
                    0 <= j < self.entries@.len() && self.entries@[j].0@ == k by {
                    if k != self.entries@.last().0@ {
                        let j = choose|j: int|
                            0 <= j < old_entries.len() && old_entries[j].0@ == k;
                        assert(self.entries@[j].0@ == k);
                    } else {
                        assert(self.entries@[old_entries.len() as int].0@ == k);
                    }
                }
            },
        }
    }

    fn clear_one(&mut self, key: &[u8])
        requires
            old(self).wf(),
        ensures
            final(self).wf(),
            final(self)@ == old(self)@.remove(key@),
    {
        let ghost m = self.contents@.remove(key@);
        match self.find(key) {
            Some(i) => {
                let ghost old_entries = self.entries@;
                self.entries.swap_remove(i);
                self.contents = Ghost(m);
                assert forall|j: int| 0 <= j < self.entries@.len() implies {
                    &&& #[trigger] m.contains_key(self.entries@[j].0@)
                    &&& m[self.entries@[j].0@] == self.entries@[j].1@
                } by {
                    if j == i {
                        assert(self.entries@[j] == old_entries.last());
                    } else {
                        assert(self.entries@[j] == old_entries[j]);
                    }
                }
                assert forall|k: Seq<u8>| #[trigger] m.contains_key(k) implies exists|j: int|
                    0 <= j < self.entries@.len() && self.entries@[j].0@ == k by {
                    let j = choose|j: int| 0 <= j < old_entries.len() && old_entries[j].0@ == k;
                    if j == old_entries.len() - 1 {
                        assert(self.entries@[i as int].0@ == k);
                    } else {
                        assert(self.entries@[j].0@ == k);
                    }
                }
            },
            None => {
                assert(m =~= self.contents@);
            },
        }
    }

    /// Applies every write of `batch`, in order.
    pub fn write(&mut self, batch: BatchBuilder)
        requires
            old(self).wf(),
        ensures
            final(self).wf(),
            final(self)@ == apply_ops(old(self)@, batch.ops@),
    {
        let ops = batch.ops;
        let ghost start = self@;
        let mut i: usize = 0;
        while i < ops.len()
            invariant
                i <= ops@.len(),
                self.wf(),
                self@ == apply_ops(start, ops@.subrange(0, i as int)),
            decreases ops@.len() - i,
        {
            assert(ops@.subrange(0, i + 1).drop_last() =~= ops@.subrange(0, i as int));
            match &ops[i] {
                BatchOp::Put { key, value } => self.set_one(key.clone(), value.clone()),
                BatchOp::Clear { key } => self.clear_one(key.as_slice()),
            }
            i = i + 1;
        }
        assert(ops@.subrange(0, ops@.len() as int) =~= ops@);
    }

    fn collect_keys_with_prefix(&self, prefix: &[u8]) -> (r: Vec<Vec<u8>>)
        requires
            self.wf(),
        ensures
            key_views(r@).no_duplicates(),
            forall|k: Seq<u8>|
                #[trigger] key_views(r@).contains(k) <==> (self@.contains_key(k)
                    && has_prefix(k, prefix@)),
    {
        let mut r: Vec<Vec<u8>> = Vec::new();
        let mut i: usize = 0;
        while i < self.entries.len()
            invariant
                i <= self.entries@.len(),
                self.wf(),
                forall|j: int|
                    0 <= j < r@.len() ==> exists|e: int|
                        0 <= e < i && #[trigger] r@[j]@ == self.entries@[e].0@ && has_prefix(
                            r@[j]@,
                            prefix@,
                        ),
                forall|e: int|
                    0 <= e < i && has_prefix(self.entries@[e].0@, prefix@) ==> exists|j: int|
                        0 <= j < r@.len() && #[trigger] r@[j]@ == self.entries@[e].0@,
                forall|a: int, b: int|
                    0 <= a < r@.len() && 0 <= b < r@.len() && a != b ==> r@[a]@ != r@[b]@,
            decreases self.entries@.len() - i,
        {
            let ghost old_r = r@;
            if starts_with(self.entries[i].0.as_slice(), prefix) {
                let k = self.entries[i].0.clone();
                assert(k@ == self.entries@[i as int].0@);
                r.push(k);
                assert(r@[r@.len() - 1]@ == self.entries@[i as int].0@);
                assert forall|j: int| 0 <= j < old_r.len() implies r@[j] == old_r[j] by {}
                assert forall|a: int, b: int|
                    0 <= a < r@.len() && 0 <= b < r@.len() && a != b implies r@[a]@ != r@[b]@ by {
                    if a == old_r.len() {
                        let e = choose|e: int|
                            0 <= e < i && #[trigger] old_r[b]@ == self.entries@[e].0@ && has_prefix(
                                old_r[b]@,
                                prefix@,
                            );
                        assert(r@[b]@ == self.entries@[e].0@);
                        assert(self.entries@[i as int].0@ != self.entries@[e].0@);
                    } else if b == old_r.len() {
                        let e = choose|e: int|
                            0 <= e < i && #[trigger] old_r[a]@ == self.entries@[e].0@ && has_prefix(
                                old_r[a]@,
                                prefix@,
                            );
                        assert(r@[a]@ == self.entries@[e].0@);
                        assert(self.entries@[i as int].0@ != self.entries@[e].0@);
                    } else {
                        assert(r@[a] == old_r[a] && r@[b] == old_r[b]);
                    }
                }
                assert forall|e: int|
                    0 <= e < i + 1 && has_prefix(self.entries@[e].0@, prefix@) implies exists|j: int|
                        0 <= j < r@.len() && #[trigger] r@[j]@ == self.entries@[e].0@ by {
                    if e < i {
                        let j = choose|j: int|
                            0 <= j < old_r.len() && #[trigger] old_r[j]@ == self.entries@[e].0@;
                        assert(r@[j]@ == self.entries@[e].0@);
                    } else {
                        assert(r@[old_r.len() as int]@ == self.entries@[e].0@);
                    }
                }
                assert forall|j: int| 0 <= j < r@.len() implies exists|e: int|
                    0 <= e < i + 1 && #[trigger] r@[j]@ == self.entries@[e].0@ && has_prefix(
                        r@[j]@,
                        prefix@,
                    ) by {
                    if j < old_r.len() {
                        let e = choose|e: int|
                            0 <= e < i && #[trigger] old_r[j]@ == self.entries@[e].0@ && has_prefix(
                                old_r[j]@,
                                prefix@,
                            );
                        assert(r@[j]@ == self.entries@[e].0@);
                    } else {
                        assert(r@[j]@ == self.entries@[i as int].0@);
                    }
                }
            }
            i = i + 1;
        }
        let ghost rv = key_views(r@);
        assert forall|k: Seq<u8>| #[trigger] rv.contains(k) <==> (self@.contains_key(k) && has_prefix(
            k,
            prefix@,
        )) by {
            if rv.contains(k) {
                let j = choose|j: int| 0 <= j < rv.len() && rv[j] == k;
                assert(r@[j]@ == k);
            }
            if self@.contains_key(k) && has_prefix(k, prefix@) {
                let e = choose|e: int| 0 <= e < self.entries@.len() && self.entries@[e].0@ == k;
                let j = choose|j: int| 0 <= j < r@.len() && #[trigger] r@[j]@ == self.entries@[e].0@;
                assert(rv[j] == k);
            }
        }
        r
    }

    /// The keys that begin with `prefix`, each once, in ascending byte
    /// order.
    pub fn keys_with_prefix(&self, prefix: &[u8]) -> (r: Vec<Vec<u8>>)
        requires
            self.wf(),
        ensures
            key_views(r@).no_duplicates(),
            forall|k: Seq<u8>|
                #[trigger] key_views(r@).contains(k) <==> (self@.contains_key(k)
                    && has_prefix(k, prefix@)),
            forall|i: int, j: int| 0 <= i < j < r@.len() ==> lex_lt(r@[i]@, r@[j]@),
    {
        let mut r = self.collect_keys_with_prefix(prefix);
        let ghost before = key_views(r@);
        sort_keys(&mut r);
        proof {
            let after = key_views(r@);
            before.lemma_multiset_has_no_duplicates();
            assert forall|x: Seq<u8>| after.to_multiset().contains(x) implies after.to_multiset().count(x) == 1 by {}
            after.lemma_multiset_has_no_duplicates_conv();
            assert forall|x: Seq<u8>| #[trigger] after.contains(x) <==> before.contains(x) by {
                assert(after.contains(x) <==> after.to_multiset().count(x) > 0);
                assert(before.contains(x) <==> before.to_multiset().count(x) > 0);
            }
            assert forall|i: int, j: int| 0 <= i < j < r@.len() implies lex_lt(r@[i]@, r@[j]@) by {
                assert(after[i] == r@[i]@ && after[j] == r@[j]@);
                assert(after[i] != after[j]);
            }
        }
        r
    }
}

/// Whether byte string `a` sorts strictly before `b`: at the first byte where
/// they differ `a`'s is smaller, or `a` is a proper prefix of `b`.
pub open spec fn lex_lt(a: Seq<u8>, b: Seq<u8>) -> bool
    decreases a.len(),
{
    if a.len() == 0 {
        b.len() > 0
    } else if b.len() == 0 {
        false
    } else if a[0] != b[0] {
        a[0] < b[0]
    } else {
        lex_lt(a.drop_first(), b.drop_first())
    }
}

/// Relies on `slice::sort_unstable` and the lexicographic `Ord` of `Vec<u8>`:
/// the same byte strings, each no greater than the next.
#[verifier::external_body]
fn sort_keys(v: &mut Vec<Vec<u8>>)
    ensures
        key_views(final(v)@).to_multiset() == key_views(old(v)@).to_multiset(),
        forall|i: int, j: int|
            0 <= i < j < final(v)@.len() ==> final(v)@[i]@ == final(v)@[j]@ || lex_lt(final(v)@[i]@, final(v)@[j]@),
{
    v.sort_unstable();
}

/// The byte strings held by a sequence of buffers.
pub open spec fn key_views(r: Seq<Vec<u8>>) -> Seq<Seq<u8>> {
    r.map_values(|k: Vec<u8>| k@)
}

/// Whether `k` begins with `p`.
pub open spec fn has_prefix(k: Seq<u8>, p: Seq<u8>) -> bool {
    p.len() <= k.len() && k.subrange(0, p.len() as int) == p
}

} // verus!
