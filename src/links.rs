//! The binding table: a multi-map from a source element id to the bindings
//! that react to it, kept in an outside multi-map.
use vstd::prelude::*;
use multimap::MultiMap;
use crate::binding::Mapping;

verus! {

/// A binding to `target` through `map`, stored under its source id.
#[derive(Debug)]
pub struct Binding {
    pub target: usize,
    pub map: Mapping,
}

#[verifier::external_type_specification]
#[verifier::external_body]
#[verifier::reject_recursive_types(K)]
#[verifier::reject_recursive_types(V)]
#[verifier::reject_recursive_types(S)]
pub struct ExMultiMap<K, V, S>(MultiMap<K, V, S>);

/// What a binding table holds: for each source id, its bindings in the
/// order they were added.
pub uninterp spec fn links_of(m: MultiMap<usize, Binding>) -> Map<usize, Seq<Binding>>;

/// Whether a binding from `source` to `target` survives the removal of the
/// ids marked in `gone`.
pub open spec fn kept(source: usize, target: usize, gone: Seq<bool>) -> bool {
    &&& !(source < gone.len() && gone[source as int])
    &&& !(target < gone.len() && gone[target as int])
}

/// `m` without the bindings that touch an id marked in `gone`; a source
/// left with no binding disappears.
pub open spec fn pruned(m: Map<usize, Seq<Binding>>, gone: Seq<bool>) -> Map<usize, Seq<Binding>> {
    Map::new(
        |k: usize| m.contains_key(k) && m[k].filter(|b: Binding| kept(k, b.target, gone)).len() > 0,
        |k: usize| m[k].filter(|b: Binding| kept(k, b.target, gone)),
    )
}

pub fn link_kept(source: usize, target: usize, gone: &Vec<bool>) -> (r: bool)
    ensures
        r == kept(source, target, gone@),
{
    !(source < gone.len() && gone[source]) && !(target < gone.len() && gone[target])
}

/// Relies on `MultiMap::new`: the new map is empty.
#[verifier::external_body]
pub fn links_new() -> (r: MultiMap<usize, Binding>)
    ensures
        links_of(r).is_empty(),
{
    MultiMap::new()
}

/// Relies on `MultiMap::insert`: the value is appended to the values under
/// the key, which are created when the key is new.
#[verifier::external_body]
pub fn links_insert(m: &mut MultiMap<usize, Binding>, k: usize, v: Binding)
    ensures
        links_of(*final(m)) == links_of(*old(m)).insert(
            k,
            if links_of(*old(m)).contains_key(k) {
                links_of(*old(m))[k].push(v)
            } else {
                seq![v]
            },
        ),
{
    m.insert(k, v)
}

/// Relies on `MultiMap::get_vec`: the values under the key, if any.
#[verifier::external_body]
pub fn links_get(m: &MultiMap<usize, Binding>, k: usize) -> (r: Option<&Vec<Binding>>)
    ensures
        match r {
            Some(v) => links_of(*m).contains_key(k) && v@ == links_of(*m)[k],
            None => !links_of(*m).contains_key(k),
        },
{
    m.get_vec(&k)
}

/// Relies on `MultiMap::retain`: each key's values are filtered in order by
/// the predicate, and keys left without values are dropped.
#[verifier::external_body]
pub fn links_retain(m: &mut MultiMap<usize, Binding>, gone: &Vec<bool>)
    ensures
        links_of(*final(m)) == pruned(links_of(*old(m)), gone@),
{
    m.retain(|k, b| link_kept(*k, b.target, gone))
}

} // verus!
