//! The two collections the allocator keeps: the allocation table (a
//! `hashbrown::HashMap` from user pointer to size) and the set of shadow
//! addresses already mapped (a `rangemap::RangeSet`).

use vstd::prelude::*;

verus! {

#[verifier::external_type_specification]
#[verifier::external_body]
#[verifier::reject_recursive_types(K)]
#[verifier::reject_recursive_types(V)]
#[verifier::reject_recursive_types(S)]
pub struct ExHashMap<K, V, S>(hashbrown::HashMap<K, V, S>);

#[verifier::external_type_specification]
#[verifier::external_body]
pub struct ExDefaultHashBuilder(hashbrown::hash_map::DefaultHashBuilder);

#[verifier::external_type_specification]
#[verifier::external_body]
#[verifier::reject_recursive_types(T)]
pub struct ExRangeSet<T>(rangemap::RangeSet<T>);

/// The entries of an allocation table.
pub uninterp spec fn table_entries(t: hashbrown::HashMap<u64, u64>) -> Map<u64, u64>;

/// The addresses covered by the ranges of a range set.
pub uninterp spec fn covered(s: rangemap::RangeSet<u64>) -> Set<u64>;

/// The addresses of `[start, end)`.
pub open spec fn span(start: int, end: int) -> Set<u64> {
    Set::new(|x: u64| start <= x < end)
}

/// Relies on `hashbrown::HashMap::new`: the map starts empty.
#[verifier::external_body]
pub(crate) fn table_new() -> (r: hashbrown::HashMap<u64, u64>)
    ensures
        table_entries(r).dom() == Set::<u64>::empty(),
{
    hashbrown::HashMap::new()
}

/// Relies on `hashbrown::HashMap::insert`: the key maps to the value afterwards,
/// every other entry stays.
#[verifier::external_body]
pub(crate) fn table_insert(t: &mut hashbrown::HashMap<u64, u64>, k: u64, v: u64)
    ensures
        table_entries(*final(t)) == table_entries(*old(t)).insert(k, v),
{
    t.insert(k, v);
}

/// Relies on `hashbrown::HashMap::get`: the value stored under the key, if any.
#[verifier::external_body]
pub(crate) fn table_get(t: &hashbrown::HashMap<u64, u64>, k: u64) -> (r: Option<u64>)
    ensures
        r == (if table_entries(*t).contains_key(k) {
            Some(table_entries(*t)[k])
        } else {
            None::<u64>
        }),
{
    t.get(&k).copied()
}

/// Relies on `hashbrown::HashMap::remove`: the key has no entry afterwards,
/// every other entry stays.
#[verifier::external_body]
pub(crate) fn table_remove(t: &mut hashbrown::HashMap<u64, u64>, k: u64)
    ensures
        table_entries(*final(t)) == table_entries(*old(t)).remove(k),
{
    t.remove(&k);
}

/// Relies on `rangemap::RangeSet::new`: the set starts empty.
#[verifier::external_body]
pub(crate) fn ranges_new() -> (r: rangemap::RangeSet<u64>)
    ensures
        covered(r) == Set::<u64>::empty(),
{
    rangemap::RangeSet::new()
}

/// Relies on `rangemap::RangeSet::insert`: the set covers `[start, end)` as
/// well afterwards, and nothing else new. It panics on an empty range.
#[verifier::external_body]
pub(crate) fn ranges_insert(s: &mut rangemap::RangeSet<u64>, start: u64, end: u64)
    requires
        start < end,
    ensures
        covered(*final(s)) == covered(*old(s)).union(span(start as int, end as int)),
{
    s.insert(start..end);
}

/// Relies on `rangemap::RangeSet::gaps`: the maximal ranges inside
/// `[start, end)` that the set does not cover, in ascending order.
#[verifier::external_body]
pub(crate) fn ranges_gaps(s: &rangemap::RangeSet<u64>, start: u64, end: u64) -> (r: Vec<(u64, u64)>)
    requires
        start < end,
    ensures
        forall|i: int|
            0 <= i < r@.len() ==> start <= (#[trigger] r@[i]).0 && r@[i].0 < r@[i].1 && r@[i].1
                <= end,
        forall|i: int, j: int| 0 <= i < j < r@.len() ==> (#[trigger] r@[i]).1 <= (#[trigger] r@[j]).0,
        forall|i: int, x: u64|
            0 <= i < r@.len() && (#[trigger] r@[i]).0 <= x < r@[i].1 ==> !(#[trigger] covered(
                *s,
            ).contains(x)),
        forall|x: u64|
            start <= x < end && !(#[trigger] covered(*s).contains(x)) ==> exists|i: int|
                0 <= i < r@.len() && (#[trigger] r@[i]).0 <= x < r@[i].1,
{
    s.gaps(&(start..end)).map(|g| (g.start, g.end)).collect()
}

} // verus!
