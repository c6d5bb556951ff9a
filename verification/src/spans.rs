//! A map from stretches of the time axis that do not overlap to numbers, kept
//! by `nodit`.
//!
//! The map is not proved here. What this module states of each operation is
//! what the rest of the library relies on.

use vstd::prelude::*;
use nodit::NoditMap;

verus! {

/// A `NoditMap` from stretches of ticks to numbers.
#[verifier::external_body]
pub struct SpanMap {
    inner: NoditMap<u64, nodit::Interval<u64>, usize>,
}

/// One entry of a map: the first tick of a stretch, its last tick, and the
/// number kept under it.
pub type Entry = (u64, u64, usize);

/// The entries of a map, in ascending order.
pub uninterp spec fn entries(map: SpanMap) -> Seq<(u64, u64, usize)>;

/// The stretch of `e` has a tick in common with the stretch from `lo` to `hi`.
pub open spec fn touches(e: Entry, lo: u64, hi: u64) -> bool {
    e.0 <= hi && lo <= e.1
}

/// The test for entries that touch the stretch from `lo` to `hi`.
pub open spec fn touching(lo: u64, hi: u64) -> spec_fn(Entry) -> bool {
    |e: Entry| touches(e, lo, hi)
}

/// The test for entries that do not touch the stretch from `lo` to `hi`.
pub open spec fn clear_of(lo: u64, hi: u64) -> spec_fn(Entry) -> bool {
    |e: Entry| !touches(e, lo, hi)
}

/// The test for entries that end before the tick `lo`.
pub open spec fn ends_before(lo: u64) -> spec_fn(Entry) -> bool {
    |e: Entry| e.1 < lo
}

/// The test for entries that start after the tick `hi`.
pub open spec fn starts_after(hi: u64) -> spec_fn(Entry) -> bool {
    |e: Entry| e.0 > hi
}

/// Calls `NoditMap::new`, which makes a map without entries.
#[verifier::external_body]
pub(crate) fn new_map() -> (map: SpanMap)
    ensures
        entries(map) == Seq::<Entry>::empty(),
{
    SpanMap { inner: NoditMap::new() }
}

/// Calls `NoditMap::remove_overlapping`, which takes out of the map every
/// entry that touches the stretch from `lo` to `hi` and returns them in
/// ascending order. The other entries stay.
#[verifier::external_body]
pub(crate) fn remove_overlapping(map: &mut SpanMap, lo: u64, hi: u64) -> (removed: Vec<Entry>)
    requires
        lo <= hi,
    ensures
        removed@ == entries(*old(map)).filter(touching(lo, hi)),
        entries(*final(map)) == entries(*old(map)).filter(clear_of(lo, hi)),
{
    map.inner.remove_overlapping(&nodit::interval::ii(lo, hi)).map(
        |(k, v)| (*k.start(), *k.end(), v),
    ).collect()
}

/// Calls `NoditMap::insert_strict`. Where no entry touches the stretch from
/// `lo` to `hi`, the new entry is put between the entries that end before it
/// and those that start after it. Where one does, the map stays as it is and
/// the number comes back.
#[verifier::external_body]
pub(crate) fn insert_strict(map: &mut SpanMap, lo: u64, hi: u64, value: usize) -> (r: Result<
    (),
    usize,
>)
    requires
        lo <= hi,
    ensures
        r is Ok <==> entries(*old(map)).filter(touching(lo, hi)).len() == 0,
        r is Ok ==> entries(*final(map)) == entries(*old(map)).filter(ends_before(lo)).push(
            (lo, hi, value),
        ) + entries(*old(map)).filter(starts_after(hi)),
        r is Err ==> r->Err_0 == value && entries(*final(map)) == entries(*old(map)),
{
    match map.inner.insert_strict(nodit::interval::ii(lo, hi), value) {
        Ok(()) => Ok(()),
        Err(e) => Err(e.value),
    }
}

/// Calls `NoditMap::iter`, which visits the entries in ascending order.
#[verifier::external_body]
pub(crate) fn entries_of(map: &SpanMap) -> (r: Vec<Entry>)
    ensures
        r@ == entries(*map),
{
    map.inner.iter().map(|(k, v)| (*k.start(), *k.end(), *v)).collect()
}

} // verus!
