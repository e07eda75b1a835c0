//! The insertion-ordered containers of `indexmap` that the interpreter and the
//! parser keep their tables in, each described by what it holds.
use indexmap::{IndexMap, IndexSet};
use std::hash::RandomState;
use vstd::prelude::*;

use crate::pointers::Indices;

verus! {

#[verifier::external_type_specification]
#[verifier::external_body]
#[verifier::reject_recursive_types(T)]
#[verifier::reject_recursive_types(S)]
pub struct ExIndexSet<T, S>(IndexSet<T, S>);

#[verifier::external_type_specification]
#[verifier::external_body]
#[verifier::reject_recursive_types(K)]
#[verifier::reject_recursive_types(V)]
#[verifier::reject_recursive_types(S)]
pub struct ExIndexMap<K, V, S>(IndexMap<K, V, S>);

/// The buckets of a split-pointer table, by the high part of the pointer.
pub uninterp spec fn buckets_held(m: IndexMap<u64, Indices, RandomState>) -> Map<
    u64,
    (Seq<u16>, Seq<usize>),
>;

/// The view of a bucket: its low parts and its allocation indices.
pub open spec fn bucket_view(b: Indices) -> (Seq<u16>, Seq<usize>) {
    (b.small_ptr_parts@, b.allocation_indices@)
}

/// Relies on `IndexMap::new`: a new map is empty.
#[verifier::external_body]
pub(crate) fn new_buckets() -> (r: IndexMap<u64, Indices, RandomState>)
    ensures
        buckets_held(r).dom() == Set::<u64>::empty(),
{
    IndexMap::new()
}

/// Relies on `IndexMap::swap_remove`: removes the key and hands back its value.
#[verifier::external_body]
pub(crate) fn remove_bucket(m: &mut IndexMap<u64, Indices, RandomState>, key: u64) -> (r: Option<
    Indices,
>)
    ensures
        buckets_held(*final(m)) == buckets_held(*old(m)).remove(key),
        buckets_held(*old(m)).contains_key(key) <==> r is Some,
        r is Some ==> bucket_view(r->0) == buckets_held(*old(m))[key],
{
    m.swap_remove(&key)
}

/// Relies on `IndexMap::insert`: the key maps to the value afterwards.
#[verifier::external_body]
pub(crate) fn insert_bucket(m: &mut IndexMap<u64, Indices, RandomState>, key: u64, value: Indices)
    ensures
        buckets_held(*final(m)) == buckets_held(*old(m)).insert(key, bucket_view(value)),
{
    m.insert(key, value);
}

} // verus!

verus! {

/// The interned strings, in insertion order.
pub uninterp spec fn strings_held(s: IndexSet<String, RandomState>) -> Seq<Seq<char>>;

/// The interned instruction pointers, in insertion order.
pub uninterp spec fn ips_held(s: IndexSet<u64, RandomState>) -> Seq<u64>;

/// The interned allocation signatures `(size, parent trace)`, in insertion order.
pub uninterp spec fn signatures_held(s: IndexSet<(u64, u64), RandomState>) -> Seq<(u64, u64)>;

/// What `IndexSet::insert_full` does to a set holding `before`: a value held
/// keeps its index and leaves the set unchanged; a new one is appended.
pub open spec fn interned<T>(before: Seq<T>, v: T, after: Seq<T>, r: (usize, bool)) -> bool {
    if before.contains(v) {
        &&& !r.1
        &&& after == before
        &&& r.0 < before.len()
        &&& before[r.0 as int] == v
    } else {
        &&& r.1
        &&& after == before.push(v)
        &&& r.0 == before.len()
    }
}

/// Relies on `IndexSet::new`: a new set is empty.
#[verifier::external_body]
pub(crate) fn new_strings() -> (r: IndexSet<String, RandomState>)
    ensures
        strings_held(r) == Seq::<Seq<char>>::empty(),
{
    IndexSet::new()
}

/// Relies on `IndexSet::insert_full`: the index of an equal string already
/// held, or the string appended at the end. The entries are kept in a `Vec`,
/// which holds at most `isize::MAX` of them.
#[verifier::external_body]
pub(crate) fn intern_string(s: &mut IndexSet<String, RandomState>, v: String) -> (r: (usize, bool))
    ensures
        strings_held(*final(s)).len() <= isize::MAX,
        interned(strings_held(*old(s)), v@, strings_held(*final(s)), r),
{
    s.insert_full(v)
}

/// Relies on `IndexSet::len`: the number of strings held.
#[verifier::external_body]
pub(crate) fn count_strings(s: &IndexSet<String, RandomState>) -> (r: usize)
    ensures
        r == strings_held(*s).len(),
{
    s.len()
}

/// Relies on `IndexSet::new`: a new set is empty.
#[verifier::external_body]
pub(crate) fn new_ips() -> (r: IndexSet<u64, RandomState>)
    ensures
        ips_held(r) == Seq::<u64>::empty(),
{
    IndexSet::new()
}

/// Relies on `IndexSet::insert_full`: the index of the value already held, or
/// the value appended at the end. The entries are kept in a `Vec`, which
/// holds at most `isize::MAX` of them.
#[verifier::external_body]
pub(crate) fn intern_ip(s: &mut IndexSet<u64, RandomState>, v: u64) -> (r: (usize, bool))
    ensures
        ips_held(*final(s)).len() <= isize::MAX,
        interned(ips_held(*old(s)), v, ips_held(*final(s)), r),
{
    s.insert_full(v)
}

/// Relies on `IndexSet::len`: the number of values held.
#[verifier::external_body]
pub(crate) fn count_ips(s: &IndexSet<u64, RandomState>) -> (r: usize)
    ensures
        r == ips_held(*s).len(),
{
    s.len()
}

/// Relies on `IndexSet::new`: a new set is empty.
#[verifier::external_body]
pub(crate) fn new_signatures() -> (r: IndexSet<(u64, u64), RandomState>)
    ensures
        signatures_held(r) == Seq::<(u64, u64)>::empty(),
{
    IndexSet::new()
}

/// Relies on `IndexSet::insert_full`: the index of the pair already held, or
/// the pair appended at the end. The entries are kept in a `Vec`, which
/// holds at most `isize::MAX` of them.
#[verifier::external_body]
pub(crate) fn intern_signature(s: &mut IndexSet<(u64, u64), RandomState>, v: (u64, u64)) -> (r: (
    usize,
    bool,
))
    ensures
        signatures_held(*final(s)).len() <= isize::MAX,
        interned(signatures_held(*old(s)), v, signatures_held(*final(s)), r),
{
    s.insert_full(v)
}

} // verus!

verus! {

/// The position in the allocation table of each trace index seen.
pub uninterp spec fn positions_held(m: IndexMap<u64, u64, RandomState>) -> Map<u64, u64>;

/// Relies on `IndexMap::new`: a new map is empty.
#[verifier::external_body]
pub(crate) fn new_positions() -> (r: IndexMap<u64, u64, RandomState>)
    ensures
        positions_held(r).dom() == Set::<u64>::empty(),
{
    IndexMap::new()
}

/// Relies on `IndexMap::get`: the value of `key`, where it is held.
#[verifier::external_body]
pub(crate) fn position_of(m: &IndexMap<u64, u64, RandomState>, key: u64) -> (r: Option<u64>)
    ensures
        r is Some <==> positions_held(*m).contains_key(key),
        r is Some ==> r->0 == positions_held(*m)[key],
{
    m.get(&key).copied()
}

/// Relies on `IndexMap::insert`: the key maps to the value afterwards.
#[verifier::external_body]
pub(crate) fn set_position(m: &mut IndexMap<u64, u64, RandomState>, key: u64, value: u64)
    ensures
        positions_held(*final(m)) == positions_held(*old(m)).insert(key, value),
{
    m.insert(key, value);
}

} // verus!
