//! The outside collections the search keeps its state in, with what they are relied on for.
use ahash::{AHashMap, RandomState};
use smallvec::SmallVec;
use vstd::prelude::*;

use crate::partition::Partition;

verus! {

/// ahash's hash map, opaque: what it holds is named by [`partition_table`].
#[verifier::external_type_specification]
#[verifier::external_body]
#[verifier::reject_recursive_types(K)]
#[verifier::reject_recursive_types(V)]
#[verifier::reject_recursive_types(S)]
pub struct ExAHashMap<K, V, S>(AHashMap<K, V, S>);

/// ahash's hasher builder, the map's default third parameter; opaque.
#[verifier::external_type_specification]
#[verifier::external_body]
pub struct ExRandomState(RandomState);

/// Segment ends of a partition, held inline in a small vector while there are few of them.
#[verifier::external_body]
pub struct SegmentEnds {
    ends: SmallVec<[usize; 8]>,
}

/// Segment ends held by a small vector, in order.
pub uninterp spec fn ends_of(v: SegmentEnds) -> Seq<usize>;

/// Best partitions held by the partition table, by breakpoint.
pub uninterp spec fn partition_table(m: AHashMap<usize, Partition>) -> Map<usize, Partition>;

/// Bound on a small vector's length before `push`: `SmallVec::push` grows the buffer to the
/// next power of two, and panics when that many `usize` values would overflow `isize::MAX`
/// bytes.
pub const MAX_ENDS: usize = usize::MAX / 32;

/// Relies on `SmallVec::new`: an empty vector.
#[verifier::external_body]
pub(crate) fn ends_new() -> (r: SegmentEnds)
    ensures
        ends_of(r).len() == 0,
{
    SegmentEnds { ends: SmallVec::new() }
}

/// Relies on `SmallVec::push`: appends one item at the end.
#[verifier::external_body]
pub(crate) fn ends_push(v: &mut SegmentEnds, value: usize)
    requires
        ends_of(*old(v)).len() < MAX_ENDS,
    ensures
        ends_of(*final(v)) == ends_of(*old(v)).push(value),
{
    v.ends.push(value)
}

/// Relies on `SmallVec::clone`: a copy with the same items.
#[verifier::external_body]
pub(crate) fn ends_clone(v: &SegmentEnds) -> (r: SegmentEnds)
    ensures
        ends_of(r) == ends_of(*v),
{
    SegmentEnds { ends: v.ends.clone() }
}

/// Relies on `SmallVec::into_vec`: the same items, in order, in a `Vec`.
#[verifier::external_body]
pub(crate) fn ends_into_vec(v: SegmentEnds) -> (r: Vec<usize>)
    ensures
        r@ == ends_of(v),
{
    v.ends.into_vec()
}

/// Relies on `AHashMap::new`: an empty map.
#[verifier::external_body]
pub(crate) fn table_new() -> (r: AHashMap<usize, Partition>)
    ensures
        partition_table(r).is_empty(),
{
    AHashMap::new()
}

/// Relies on `AHashMap::insert`: the key maps to the value afterwards, other keys keep theirs.
#[verifier::external_body]
pub(crate) fn table_insert(m: &mut AHashMap<usize, Partition>, key: usize, value: Partition)
    ensures
        partition_table(*final(m)) == partition_table(*old(m)).insert(key, value),
{
    m.insert(key, value);
}

/// Relies on `AHashMap::get`: the value of the key, if the map holds it.
#[verifier::external_body]
pub(crate) fn table_get(m: &AHashMap<usize, Partition>, key: usize) -> (r: Option<&Partition>)
    ensures
        r is Some <==> partition_table(*m).contains_key(key),
        r matches Some(p) ==> *p == partition_table(*m)[key],
{
    m.get(&key)
}

/// Relies on `AHashMap::remove`: takes the value of the key out of the map, if it holds it.
#[verifier::external_body]
pub(crate) fn table_remove(m: &mut AHashMap<usize, Partition>, key: usize) -> (r: Option<Partition>)
    ensures
        r is Some <==> partition_table(*old(m)).contains_key(key),
        r matches Some(p) ==> p == partition_table(*old(m))[key],
        partition_table(*final(m)) == partition_table(*old(m)).remove(key),
{
    m.remove(&key)
}

} // verus!
