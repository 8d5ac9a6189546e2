//! The insertion-ordered maps of `indexmap` that the key builder reads and
//! fills, seen through the sequence of their entries.
use vstd::prelude::*;
use indexmap::IndexMap;

verus! {

#[verifier::external_type_specification]
#[verifier::external_body]
#[verifier::reject_recursive_types(K)]
#[verifier::reject_recursive_types(V)]
#[verifier::reject_recursive_types(S)]
pub struct ExIndexMap<K, V, S>(IndexMap<K, V, S>);

/// One entry of a raw localization map: its tag and its value.
pub type RawEntry<'a> = (&'a String, &'a Option<String>);

/// The entries of a raw localization map (tag, value), in insertion order.
pub uninterp spec fn raw_entries(m: IndexMap<String, Option<String>>) -> Seq<(Seq<char>, Option<Seq<char>>)>;

/// The entries of a locale index (locale, position), in insertion order.
pub uninterp spec fn slot_entries(m: IndexMap<String, usize>) -> Seq<(Seq<char>, usize)>;

/// Relies on `IndexMap::len`: the number of entries.
#[verifier::external_body]
pub(crate) fn raw_len(m: &IndexMap<String, Option<String>>) -> (r: usize)
    ensures
        r == raw_entries(*m).len(),
{
    m.len()
}

/// Relies on `IndexMap::get_index`: the entry at position `i` in insertion
/// order, present for every `i` below the length.
#[verifier::external_body]
pub(crate) fn raw_entry(m: &IndexMap<String, Option<String>>, i: usize) -> (r: Option<RawEntry<'_>>)
    requires
        i < raw_entries(*m).len(),
    ensures
        r is Some,
        (r->0).0@ == raw_entries(*m)[i as int].0,
        (r->0).1.deep_view() == raw_entries(*m)[i as int].1,
{
    m.get_index(i)
}

/// Relies on `IndexMap::new`: a map with no entries.
#[verifier::external_body]
pub(crate) fn slots_new() -> (r: IndexMap<String, usize>)
    ensures
        slot_entries(r) == Seq::<(Seq<char>, usize)>::empty(),
{
    IndexMap::new()
}

/// Relies on `IndexMap::get`: the value stored under an equal key, if any.
#[verifier::external_body]
pub(crate) fn slot_of(m: &IndexMap<String, usize>, k: &String) -> (r: Option<usize>)
    ensures
        r matches Some(v) ==> exists|j: int|
            0 <= j < slot_entries(*m).len() && #[trigger] slot_entries(*m)[j] == (k@, v),
        r is None ==> forall|j: int|
            0 <= j < slot_entries(*m).len() ==> #[trigger] slot_entries(*m)[j].0 != k@,
{
    m.get(k).copied()
}

/// Relies on `IndexMap::insert`: a new key goes last; an existing key keeps
/// its place and takes the new value.
#[verifier::external_body]
pub(crate) fn slot_insert(m: &mut IndexMap<String, usize>, k: String, v: usize) -> (r: Option<usize>)
    ensures
        (forall|j: int| 0 <= j < slot_entries(*old(m)).len() ==> #[trigger] slot_entries(*old(m))[j].0 != k@)
            ==> slot_entries(*final(m)) == slot_entries(*old(m)).push((k@, v)) && r is None,
        (exists|j: int| 0 <= j < slot_entries(*old(m)).len() && #[trigger] slot_entries(*old(m))[j].0 == k@)
            ==> exists|j: int|
            0 <= j < slot_entries(*old(m)).len() && #[trigger] slot_entries(*old(m))[j].0 == k@
                && slot_entries(*final(m)) == slot_entries(*old(m)).update(j, (k@, v))
                && r == Some(slot_entries(*old(m))[j].1),
{
    m.insert(k, v)
}

} // verus!
