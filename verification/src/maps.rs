use vstd::prelude::*;
use ahash::AHashMap;
use ahash::AHashSet;
use ahash::RandomState;

verus! {

#[verifier::external_type_specification]
#[verifier::external_body]
#[verifier::reject_recursive_types(K)]
#[verifier::reject_recursive_types(V)]
#[verifier::reject_recursive_types(S)]
pub struct ExAHashMap<K, V, S>(AHashMap<K, V, S>);

#[verifier::external_type_specification]
#[verifier::external_body]
#[verifier::reject_recursive_types(T)]
#[verifier::reject_recursive_types(S)]
pub struct ExAHashSet<T, S>(AHashSet<T, S>);

#[verifier::external_type_specification]
#[verifier::external_body]
pub struct ExRandomState(RandomState);

/// What an integer-keyed hash map holds.
pub uninterp spec fn entries_of(m: AHashMap<u64, u64>) -> Map<u64, u64>;

/// What a name-keyed hash map holds, each name taken as its characters.
pub uninterp spec fn ids_of(m: AHashMap<String, usize>) -> Map<Seq<char>, usize>;

/// The pairs that a hash set holds.
pub uninterp spec fn pairs_of(s: AHashSet<(usize, usize)>) -> Set<(usize, usize)>;

/// `AHashMap::new`: a map without entries.
#[verifier::external_body]
pub(crate) fn entries_new() -> (m: AHashMap<u64, u64>)
    ensures
        forall|k: u64| !entries_of(m).contains_key(k),
{
    AHashMap::new()
}

/// `HashMap::get` through `AHashMap`: the value stored under `k`, if there is one.
#[verifier::external_body]
pub(crate) fn entries_get(m: &AHashMap<u64, u64>, k: u64) -> (r: Option<u64>)
    ensures
        entries_of(*m).contains_key(k) ==> r == Some(entries_of(*m)[k]),
        !entries_of(*m).contains_key(k) ==> r.is_none(),
{
    m.get(&k).copied()
}

/// `HashMap::insert` through `AHashMap`: stores `v` under `k`, replacing what was there.
#[verifier::external_body]
pub(crate) fn entries_insert(m: &mut AHashMap<u64, u64>, k: u64, v: u64)
    ensures
        entries_of(*final(m)) == entries_of(*old(m)).insert(k, v),
{
    m.insert(k, v);
}

/// `HashMap::remove` through `AHashMap`: drops the entry under `k`, if there is one.
#[verifier::external_body]
pub(crate) fn entries_remove(m: &mut AHashMap<u64, u64>, k: u64)
    ensures
        entries_of(*final(m)) == entries_of(*old(m)).remove(k),
{
    m.remove(&k);
}

/// `HashMap::keys` through `AHashMap`, collected: every key once, in no stated order.
#[verifier::external_body]
pub(crate) fn entries_keys(m: &AHashMap<u64, u64>) -> (ks: Vec<u64>)
    ensures
        ks@.no_duplicates(),
        forall|k: u64| ks@.contains(k) <==> entries_of(*m).contains_key(k),
{
    m.keys().copied().collect()
}

/// `AHashMap::new`: a map without entries.
#[verifier::external_body]
pub(crate) fn ids_new() -> (m: AHashMap<String, usize>)
    ensures
        forall|k: Seq<char>| !ids_of(m).contains_key(k),
{
    AHashMap::new()
}

/// `HashMap::get` through `AHashMap`: the id stored under `name`, if there is one.
#[verifier::external_body]
pub(crate) fn ids_get(m: &AHashMap<String, usize>, name: &str) -> (r: Option<usize>)
    ensures
        ids_of(*m).contains_key(name@) ==> r == Some(ids_of(*m)[name@]),
        !ids_of(*m).contains_key(name@) ==> r.is_none(),
{
    m.get(name).copied()
}

/// `HashMap::insert` through `AHashMap`: stores `id` under `name`, replacing what was there.
#[verifier::external_body]
pub(crate) fn ids_insert(m: &mut AHashMap<String, usize>, name: String, id: usize)
    ensures
        ids_of(*final(m)) == ids_of(*old(m)).insert(name@, id),
{
    m.insert(name, id);
}

/// `AHashSet::new`: a set without members.
#[verifier::external_body]
pub(crate) fn pairs_new() -> (s: AHashSet<(usize, usize)>)
    ensures
        forall|p: (usize, usize)| !pairs_of(s).contains(p),
{
    AHashSet::new()
}

/// `HashSet::insert` through `AHashSet`: adds one pair.
#[verifier::external_body]
pub(crate) fn pairs_insert(s: &mut AHashSet<(usize, usize)>, a: usize, b: usize)
    ensures
        pairs_of(*final(s)) == pairs_of(*old(s)).insert((a, b)),
{
    s.insert((a, b));
}

/// `HashSet::contains` through `AHashSet`: whether the pair is a member.
#[verifier::external_body]
pub(crate) fn pairs_contains(s: &AHashSet<(usize, usize)>, a: usize, b: usize) -> (r: bool)
    ensures
        r == pairs_of(*s).contains((a, b)),
{
    s.contains(&(a, b))
}

} // verus!
