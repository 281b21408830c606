use vstd::prelude::*;
use petgraph::unionfind::UnionFind;

verus! {

#[verifier::external_type_specification]
#[verifier::external_body]
#[verifier::reject_recursive_types(K)]
pub struct ExUnionFind<K>(UnionFind<K>);

/// The representative of each element's set.
pub uninterp spec fn reps_of(u: UnionFind<usize>) -> Seq<usize>;

/// The representatives after the sets led by `a` and `b` were joined under `w`.
pub open spec fn joined(reps: Seq<usize>, a: usize, b: usize, w: usize) -> Seq<usize> {
    Seq::new(reps.len(), |i: int| if reps[i] == a || reps[i] == b { w } else { reps[i] })
}

/// `UnionFind::new`: `n` sets of one element, each its own representative.
#[verifier::external_body]
pub(crate) fn dsu_new(n: usize) -> (u: UnionFind<usize>)
    ensures
        reps_of(u) == Seq::new(n as nat, |i: int| i as usize),
{
    UnionFind::new(n)
}

/// `UnionFind::find`: the representative of the set that holds `x`.
#[verifier::external_body]
pub(crate) fn dsu_find(u: &UnionFind<usize>, x: usize) -> (r: usize)
    requires
        x < reps_of(*u).len(),
    ensures
        r == reps_of(*u)[x as int],
{
    u.find(x)
}

/// `UnionFind::union`: joins the sets of `x` and `y` and tells whether they were apart; the
/// joined set is led by one of the two former representatives, every other set keeps its own.
#[verifier::external_body]
pub(crate) fn dsu_union(u: &mut UnionFind<usize>, x: usize, y: usize) -> (apart: bool)
    requires
        x < reps_of(*old(u)).len(),
        y < reps_of(*old(u)).len(),
    ensures
        apart == (reps_of(*old(u))[x as int] != reps_of(*old(u))[y as int]),
        exists|w: usize|
            (w == reps_of(*old(u))[x as int] || w == reps_of(*old(u))[y as int]) && reps_of(
                *final(u),
            ) == joined(reps_of(*old(u)), reps_of(*old(u))[x as int], reps_of(*old(u))[y as int], w),
{
    u.union(x, y)
}

} // verus!
