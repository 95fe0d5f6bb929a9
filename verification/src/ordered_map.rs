//! Trusted interface to the insertion-ordered hash map of the `hashlink`
//! crate.
//!
//! The unstructured representation keeps the value-to-target table of a
//! multi-way switch in such a map, so that the order in which the upstream
//! producer listed the branches is preserved.  Verified code sees the map
//! through [`map_entries`], the sequence of its key/value pairs from front to
//! back.

use vstd::prelude::*;

verus! {

#[verifier::external_type_specification]
#[verifier::external_body]
#[verifier::reject_recursive_types(K)]
#[verifier::reject_recursive_types(V)]
#[verifier::reject_recursive_types(S)]
pub struct ExLinkedHashMap<K, V, S>(hashlink::LinkedHashMap<K, V, S>);

#[verifier::external_type_specification]
#[verifier::external_body]
pub struct ExDefaultHashBuilder(hashlink::DefaultHashBuilder);

/// The key/value pairs held by a switch-target map, in order from the front
/// to the back of its internal list.
pub uninterp spec fn map_entries(m: hashlink::LinkedHashMap<u128, usize>) -> Seq<(u128, usize)>;

/// The entries whose key differs from `k`, in unchanged order.
pub open spec fn entries_without_key(es: Seq<(u128, usize)>, k: u128) -> Seq<(u128, usize)> {
    es.filter(|e: (u128, usize)| e.0 != k)
}

/// Removing an absent key leaves the entries unchanged.
pub proof fn lemma_entries_without_absent_key(es: Seq<(u128, usize)>, k: u128)
    requires
        forall|i: int| 0 <= i < es.len() ==> (#[trigger] es[i]).0 != k,
    ensures
        entries_without_key(es, k) == es,
    decreases es.len(),
{
    reveal(Seq::filter);
    if es.len() != 0 {
        lemma_entries_without_absent_key(es.drop_last(), k);
        assert(entries_without_key(es, k) =~= es);
    } else {
        assert(entries_without_key(es, k) =~= es);
    }
}

/// Relies on hashlink's `LinkedHashMap::new`: the new map is empty.
#[verifier::external_body]
pub fn targets_new() -> (m: hashlink::LinkedHashMap<u128, usize>)
    ensures
        map_entries(m) == Seq::<(u128, usize)>::empty(),
{
    hashlink::LinkedHashMap::new()
}

/// Relies on hashlink's `LinkedHashMap::insert`: the pair is placed at the
/// back of the internal list; an entry with the same key, if present, is
/// removed and its value returned.
#[verifier::external_body]
pub fn targets_insert(m: &mut hashlink::LinkedHashMap<u128, usize>, k: u128, v: usize) -> (r:
    Option<usize>)
    ensures
        map_entries(*final(m)) == entries_without_key(map_entries(*old(m)), k).push((k, v)),
        (r matches Some(_)) <==> (exists|i: int|
            0 <= i < map_entries(*old(m)).len() && map_entries(*old(m))[i].0 == k),
        forall|i: int|
            0 <= i < map_entries(*old(m)).len() && map_entries(*old(m))[i].0 == k ==> r == Some(
                map_entries(*old(m))[i].1,
            ),
{
    m.insert(k, v)
}

/// Relies on hashlink's `LinkedHashMap::iter`: iteration yields the entries
/// from front to back.
#[verifier::external_body]
pub fn targets_entries(m: &hashlink::LinkedHashMap<u128, usize>) -> (r: Vec<(u128, usize)>)
    ensures
        r@ == map_entries(*m),
{
    let mut out: Vec<(u128, usize)> = Vec::new();
    for (k, v) in m.iter() {
        out.push((*k, *v));
    }
    out
}

} // verus!
