use vstd::prelude::*;

use ahash::{AHashMap, AHashSet, RandomState};

use crate::event::Event;
use crate::kv::key_views;

verus! {

#[verifier::external_type_specification]
#[verifier::external_body]
pub struct ExRandomState(RandomState);

#[verifier::external_type_specification]
#[verifier::external_body]
#[verifier::reject_recursive_types(T)]
#[verifier::reject_recursive_types(S)]
pub struct ExAHashSet<T, S>(AHashSet<T, S>);

#[verifier::external_type_specification]
#[verifier::external_body]
#[verifier::reject_recursive_types(K)]
#[verifier::reject_recursive_types(V)]
#[verifier::reject_recursive_types(S)]
pub struct ExAHashMap<K, V, S>(AHashMap<K, V, S>);

/// The ids held by a set of span or queue ids.
pub uninterp spec fn id_set_contents(s: AHashSet<u64>) -> Set<u64>;

/// The byte strings held by a set of attribute values.
pub uninterp spec fn text_set_contents(s: AHashSet<Vec<u8>>) -> Set<Seq<u8>>;

/// A span still being received: its start event and the events after it.
pub struct OpenSpan {
    pub start: Event,
    pub body: Vec<Event>,
}

/// Open spans keyed by span id.
pub type OpenSpans = AHashMap<u64, OpenSpan>;

/// The open spans, by span id.
pub uninterp spec fn open_span_contents(m: OpenSpans) -> Map<u64, OpenSpan>;

/// Relies on `AHashSet::new`: an empty set.
#[verifier::external_body]
pub(crate) fn id_set_new() -> (r: AHashSet<u64>)
    ensures
        id_set_contents(r) == Set::<u64>::empty(),
{
    AHashSet::new()
}

/// Relies on `HashSet::insert` (reached through `AHashSet`): the value is in
/// the set afterwards, beside what was there.
#[verifier::external_body]
pub(crate) fn id_set_insert(s: &mut AHashSet<u64>, x: u64)
    ensures
        id_set_contents(*final(s)) == id_set_contents(*old(s)).insert(x),
{
    s.insert(x);
}

/// Relies on `HashSet::contains` (reached through `AHashSet`).
#[verifier::external_body]
pub(crate) fn id_set_contains(s: &AHashSet<u64>, x: u64) -> (r: bool)
    ensures
        r == id_set_contents(*s).contains(x),
{
    s.contains(&x)
}

/// Relies on `HashSet::iter` (reached through `AHashSet`): every element
/// once, in an order that the hasher decides.
#[verifier::external_body]
pub(crate) fn id_set_to_vec(s: &AHashSet<u64>) -> (r: Vec<u64>)
    ensures
        r@.no_duplicates(),
        r@.to_set() == id_set_contents(*s),
{
    s.iter().copied().collect()
}

/// Relies on `AHashSet::new`: an empty set.
#[verifier::external_body]
pub(crate) fn text_set_new() -> (r: AHashSet<Vec<u8>>)
    ensures
        text_set_contents(r) == Set::<Seq<u8>>::empty(),
{
    AHashSet::new()
}

/// Relies on `HashSet::insert` (reached through `AHashSet`): byte strings
/// are equal exactly when their bytes are.
#[verifier::external_body]
pub(crate) fn text_set_insert(s: &mut AHashSet<Vec<u8>>, x: Vec<u8>)
    ensures
        text_set_contents(*final(s)) == text_set_contents(*old(s)).insert(x@),
{
    s.insert(x);
}

/// Relies on `HashSet::iter` (reached through `AHashSet`): every element
/// once, in an order that the hasher decides.
#[verifier::external_body]
pub(crate) fn text_set_to_vec(s: &AHashSet<Vec<u8>>) -> (r: Vec<Vec<u8>>)
    ensures
        key_views(r@).no_duplicates(),
        key_views(r@).to_set() == text_set_contents(*s),
{
    s.iter().cloned().collect()
}

/// Relies on `AHashMap::new`: an empty map.
#[verifier::external_body]
pub(crate) fn open_spans_new() -> (r: OpenSpans)
    ensures
        open_span_contents(r).dom() == Set::<u64>::empty(),
{
    AHashMap::new()
}

/// Relies on `AHashMap::insert`: the key maps to the new value afterwards.
#[verifier::external_body]
pub(crate) fn open_spans_insert(m: &mut OpenSpans, k: u64, v: OpenSpan)
    ensures
        open_span_contents(*final(m)) == open_span_contents(*old(m)).insert(k, v),
{
    m.insert(k, v);
}

/// Relies on `AHashMap::remove`: hands back the value of the key, if any,
/// and drops the key.
#[verifier::external_body]
pub(crate) fn open_spans_remove(m: &mut OpenSpans, k: u64) -> (r: Option<OpenSpan>)
    ensures
        open_span_contents(*final(m)) == open_span_contents(*old(m)).remove(k),
        r.is_some() == open_span_contents(*old(m)).contains_key(k),
        r.is_some() ==> r.unwrap() == open_span_contents(*old(m))[k],
{
    m.remove(&k)
}

} // verus!
