use vstd::prelude::*;
use vstd::multiset::Multiset;
use ahash::AHashMap;
use ahash::AHashSet;
use fixedbitset::FixedBitSet;
use petgraph::unionfind::UnionFind;
use roaring::RoaringBitmap;
use crate::bits::{
    bits_of, bitset_clear, bitset_clone, bitset_contains, bitset_new, bitset_set, members_of,
    rows_disjoint, rows_insert, rows_new, rows_union_with,
};
use crate::cluster::{
    cluster_in_range, distinct_constraints, hosts, is_endpoint, together, is_sorted_trace, node_of, offset,
    reorder, rows_of, sorted_by_constraint, strictly_before, ClusteringResult, Graph, Pos,
};
use crate::dsu::{dsu_find, dsu_new, dsu_union, joined, reps_of};
use crate::maps::{
    entries_get, entries_insert, entries_keys, entries_new, entries_of, entries_remove,
    pairs_contains, pairs_insert, pairs_new, pairs_of,
};
use crate::bonds::{
    bond, bond_of, clusters_joined, ends_at, hangs_together, is_linkpath, joined_in, keys_grounded,
    lemma_column_path, lemma_fresh_joined, lemma_merge_keeps_joined, path_joins,
};
use crate::settle::{
    barred_inv, blocked, ground_at, grounded, hi, is_end, lemma_blocked_sym,
    fresh_start, from_pair, heaviest_cross, lemma_first_linked, lemma_first_top, lemma_holder_in_trace,
    lemma_merge_keeps_links, lemma_no_cycle, lemma_settled, lemma_ties_kept, linked, lo, placed,
    relinked, row_at, rows_grounded, settled, sourced, tied, ties_inv, top_joined,
};
use crate::queue::{Candidate, PairQueue};
use crate::error::GcmError;
use crate::sims::{Edge, Sims, NODE_CAP, WEIGHT_CAP, weight_sum};
use crate::state::AlnState;

verus! {

/// The entries rise strictly: the list is sorted and holds nothing twice.
pub open spec fn strictly_rising(s: Seq<usize>) -> bool {
    forall|i: int, j: int| 0 <= i < j < s.len() ==> s[i] < s[j]
}

/// Puts `x` into a rising list, unless it is there.
fn insert_rising(v: &mut Vec<usize>, x: usize)
    requires
        strictly_rising(old(v)@),
    ensures
        strictly_rising(final(v)@),
        forall|y: usize| #[trigger] final(v)@.contains(y) <==> old(v)@.contains(y) || y == x,
{
    let n = v.len();
    let mut i: usize = 0;
    while i < n && v[i] < x
        invariant
            i <= n,
            n == v@.len(),
            v@ == old(v)@,
            forall|k: int| 0 <= k < i ==> v@[k] < x,
        decreases n - i,
    {
        i += 1;
    }
    if i < n && v[i] == x {
        assert(v@.contains(x));
        return ;
    }
    let ghost before = v@;
    v.insert(i, x);
    proof {
        assert forall|a: int, b: int| 0 <= a < b < v@.len() implies v@[a] < v@[b] by {
            if a < i && b > i {
                assert(before[a] < before[b - 1] || b - 1 == a || true);
                if b - 1 > a {
                    assert(before[a] < before[b - 1]);
                }
            }
        }
        assert(v@[i as int] == x);
        assert forall|y: usize| v@.contains(y) implies before.contains(y) || y == x by {
            let k = choose|k: int| 0 <= k < v@.len() && v@[k] == y;
            if k < i {
                assert(before[k] == y);
            } else if k > i {
                assert(before[k - 1] == y);
            }
        }
        assert forall|y: usize| before.contains(y) || y == x implies v@.contains(y) by {
            if before.contains(y) {
                let k = choose|k: int| 0 <= k < before.len() && before[k] == y;
                if k < i {
                    assert(v@[k] == y);
                } else {
                    assert(v@[k + 1] == y);
                }
            }
        }
    }
}

/// Replaces `lhs` by the union of the two lists, sorted and without repeats.
pub fn union(lhs: &mut Vec<usize>, rhs: &[usize])
    ensures
        strictly_rising(final(lhs)@),
        forall|y: usize| #[trigger]
            final(lhs)@.contains(y) <==> old(lhs)@.contains(y) || rhs@.contains(y),
{
    let mut set: Vec<usize> = Vec::new();
    let mut i: usize = 0;
    while i < lhs.len()
        invariant
            i <= lhs@.len(),
            lhs@ == old(lhs)@,
            strictly_rising(set@),
            forall|y: usize| set@.contains(y) <==> lhs@.take(i as int).contains(y),
        decreases lhs.len() - i,
    {
        let x = lhs[i];
        let ghost s0 = set@;
        insert_rising(&mut set, x);
        proof {
            assert forall|y: usize| set@.contains(y) <==> lhs@.take(i as int + 1).contains(y) by {
                let t0 = lhs@.take(i as int);
                let t1 = lhs@.take(i as int + 1);
                if t1.contains(y) {
                    let k = choose|k: int| 0 <= k < t1.len() && t1[k] == y;
                    if k < i {
                        assert(t0[k] == y);
                    }
                }
                if t0.contains(y) {
                    let k = choose|k: int| 0 <= k < t0.len() && t0[k] == y;
                    assert(t1[k] == y);
                }
                if y == x {
                    assert(t1[i as int] == x);
                }
            }
        }
        i += 1;
    }
    assert(lhs@.take(lhs@.len() as int) =~= lhs@);
    let mut j: usize = 0;
    while j < rhs.len()
        invariant
            j <= rhs@.len(),
            lhs@ == old(lhs)@,
            strictly_rising(set@),
            forall|y: usize| set@.contains(y) <==> lhs@.contains(y) || rhs@.take(j as int).contains(y),
        decreases rhs.len() - j,
    {
        let x = rhs[j];
        insert_rising(&mut set, x);
        proof {
            assert forall|y: usize| set@.contains(y) <==> lhs@.contains(y) || rhs@.take(
                j as int + 1,
            ).contains(y) by {
                let t0 = rhs@.take(j as int);
                let t1 = rhs@.take(j as int + 1);
                if t1.contains(y) {
                    let k = choose|k: int| 0 <= k < t1.len() && t1[k] == y;
                    if k < j {
                        assert(t0[k] == y);
                    }
                }
                if t0.contains(y) {
                    let k = choose|k: int| 0 <= k < t0.len() && t0[k] == y;
                    assert(t1[k] == y);
                }
                if y == x {
                    assert(t1[j as int] == x);
                }
            }
        }
        j += 1;
    }
    assert(rhs@.take(rhs@.len() as int) =~= rhs@);
    *lhs = set;
}

/// The lists of a vector of vectors.
pub open spec fn lists_of(v: Seq<Vec<usize>>) -> Seq<Seq<usize>> {
    Seq::new(v.len(), |i: int| v[i]@)
}

/// Every entry of every list names one of the `n` clusters.
pub open spec fn lists_in_range(g: Seq<Seq<usize>>, n: int) -> bool {
    &&& g.len() == n
    &&& forall|x: int, k: int| 0 <= x < n && 0 <= k < g[x].len() ==> #[trigger] g[x][k] < n
}

/// Every cluster that an edge leads to from a marked cluster is marked.
pub open spec fn closed(marks: Seq<bool>, g: Seq<Seq<usize>>) -> bool {
    forall|x: int, k: int|
        0 <= x < g.len() && marks[x] && 0 <= k < g[x].len() ==> marks[#[trigger] g[x][k] as int]
}

/// Every cluster that an edge leads to from `u` is marked.
pub open spec fn covers(marks: Seq<bool>, g: Seq<Seq<usize>>, u: int) -> bool {
    forall|k: int| 0 <= k < g[u].len() ==> marks[#[trigger] g[u][k] as int]
}

/// The number of clusters below `n` that are not marked.
pub open spec fn unmarked(marks: Seq<bool>, n: int) -> int
    decreases n,
{
    if n <= 0 {
        0
    } else {
        unmarked(marks, n - 1) + (if marks[n - 1] {
            0int
        } else {
            1int
        })
    }
}

pub proof fn lemma_unmarked_nonneg(marks: Seq<bool>, n: int)
    ensures
        unmarked(marks, n) >= 0,
    decreases n,
{
    if n > 0 {
        lemma_unmarked_nonneg(marks, n - 1);
    }
}

pub proof fn lemma_unmarked_set(marks: Seq<bool>, x: int, n: int)
    requires
        0 <= x < marks.len(),
        0 <= n <= marks.len(),
        !marks[x],
    ensures
        unmarked(marks.update(x, true), n) == unmarked(marks, n) - (if x < n {
            1int
        } else {
            0int
        }),
        unmarked(marks, n) >= (if x < n {
            1int
        } else {
            0int
        }),
    decreases n,
{
    if n > 0 {
        lemma_unmarked_set(marks, x, n - 1);
    }
}

/// An edge leads from place `k` of the walk to the next.
pub open spec fn edge_at(g: Seq<Seq<usize>>, p: Seq<usize>, k: int) -> bool {
    p[k] < g.len() && g[p[k] as int].contains(p[k + 1])
}

/// A walk along the edges: two clusters or more, with an edge from each to the next.
pub open spec fn is_walk(g: Seq<Seq<usize>>, p: Seq<usize>) -> bool {
    &&& p.len() >= 2
    &&& forall|k: int| 0 <= k < p.len() - 1 ==> #[trigger] edge_at(g, p, k)
}

/// Some walk leads from `a` to `b`.
pub open spec fn reach(g: Seq<Seq<usize>>, a: usize, b: usize) -> bool {
    exists|p: Seq<usize>| #[trigger] is_walk(g, p) && p[0] == a && p[p.len() - 1] == b
}

/// An edge is a walk.
pub proof fn lemma_reach_edge(g: Seq<Seq<usize>>, a: usize, e: usize)
    requires
        a < g.len(),
        g[a as int].contains(e),
    ensures
        reach(g, a, e),
{
    let p = seq![a, e];
    assert forall|k: int| 0 <= k < p.len() - 1 implies #[trigger] edge_at(g, p, k) by {}
    assert(is_walk(g, p) && p[0] == a && p[p.len() - 1] == e);
}

/// A walk goes on along an edge.
pub proof fn lemma_reach_step(g: Seq<Seq<usize>>, a: usize, x: usize, e: usize)
    requires
        reach(g, a, x),
        x < g.len(),
        g[x as int].contains(e),
    ensures
        reach(g, a, e),
{
    let p = choose|p: Seq<usize>| #[trigger] is_walk(g, p) && p[0] == a && p[p.len() - 1] == x;
    let q = p.push(e);
    assert forall|k: int| 0 <= k < q.len() - 1 implies #[trigger] edge_at(g, q, k) by {
        if k < p.len() - 1 {
            assert(edge_at(g, p, k));
        }
    }
    assert(is_walk(g, q) && q[0] == a && q[q.len() - 1] == e);
}

/// A walk that sets out from a marked cluster, or from one whose edges lead to marked
/// clusters only, stays among the marked where the marks are closed under the edges.
pub proof fn lemma_walk_marked(marks: Seq<bool>, g: Seq<Seq<usize>>, p: Seq<usize>, k: int)
    requires
        closed(marks, g),
        is_walk(g, p),
        marks[p[0] as int] || covers(marks, g, p[0] as int),
        1 <= k < p.len(),
    ensures
        marks[p[k] as int],
    decreases k,
{
    assert(edge_at(g, p, k - 1));
    let x = p[k - 1];
    let j = choose|j: int| 0 <= j < g[x as int].len() && g[x as int][j] == p[k];
    if k > 1 {
        lemma_walk_marked(marks, g, p, k - 1);
    }
}

/// Every marked cluster waits on the stack or has all the clusters marked that its edges
/// lead to.
pub open spec fn half_closed(marks: Seq<bool>, g: Seq<Seq<usize>>, stack: Seq<usize>) -> bool {
    forall|x: int, k: int|
        0 <= x < g.len() && marks[x] && !stack.contains(x as usize) && 0 <= k < g[x].len()
            ==> marks[#[trigger] g[x][k] as int]
}

/// Marks the clusters that the edges of `x` lead to and puts the newly marked on the stack;
/// tells whether `from` or `avoid` is among them, and stops there if so.
fn scan(
    outedges: &Vec<Vec<usize>>,
    visited: &mut FixedBitSet,
    stack: &mut Vec<usize>,
    x: usize,
    from: usize,
    avoid: usize,
) -> (found: bool)
    requires
        lists_in_range(lists_of(outedges@), outedges@.len() as int),
        bits_of(*old(visited)).len() == outedges@.len(),
        x < outedges@.len(),
        from < outedges@.len(),
        avoid < outedges@.len(),
        !bits_of(*old(visited))[from as int],
        !bits_of(*old(visited))[avoid as int],
        forall|k: int|
            0 <= k < old(stack)@.len() ==> #[trigger] old(stack)@[k] < outedges@.len() && bits_of(
                *old(visited),
            )[old(stack)@[k] as int],
        x == from || reach(lists_of(outedges@), from, x),
        forall|k: int|
            0 <= k < old(stack)@.len() ==> reach(
                lists_of(outedges@),
                from,
                #[trigger] old(stack)@[k],
            ),
    ensures
        bits_of(*final(visited)).len() == outedges@.len(),
        found ==> reach(lists_of(outedges@), from, avoid) || reach(
            lists_of(outedges@),
            from,
            from,
        ),
        forall|k: int|
            0 <= k < final(stack)@.len() ==> reach(
                lists_of(outedges@),
                from,
                #[trigger] final(stack)@[k],
            ),
        !found ==> covers(bits_of(*final(visited)), lists_of(outedges@), x as int),
        !found ==> !bits_of(*final(visited))[from as int] && !bits_of(*final(visited))[avoid as int],
        forall|y: int|
            0 <= y < outedges@.len() && bits_of(*old(visited))[y] ==> bits_of(*final(visited))[y],
        forall|y: int|
            0 <= y < outedges@.len() && bits_of(*final(visited))[y] && !bits_of(*old(visited))[y]
                ==> final(stack)@.contains(y as usize),
        forall|y: usize| old(stack)@.contains(y) ==> final(stack)@.contains(y),
        forall|k: int|
            0 <= k < final(stack)@.len() ==> #[trigger] final(stack)@[k] < outedges@.len()
                && bits_of(*final(visited))[final(stack)@[k] as int],
        unmarked(bits_of(*final(visited)), outedges@.len() as int) + final(stack)@.len()
            == unmarked(bits_of(*old(visited)), outedges@.len() as int) + old(stack)@.len(),
{
    let n = outedges.len();
    let ghost g = lists_of(outedges@);
    let ghost marks0 = bits_of(*visited);
    let ghost stack0 = stack@;
    let list = &outedges[x];
    assert(list@ == g[x as int]);
    let mut k: usize = 0;
    while k < list.len()
        invariant
            k <= list@.len(),
            n == outedges@.len(),
            g == lists_of(outedges@),
            lists_in_range(g, n as int),
            list@ == g[x as int],
            x < n,
            from < n,
            avoid < n,
            bits_of(*visited).len() == n,
            !bits_of(*visited)[from as int],
            !bits_of(*visited)[avoid as int],
            marks0 == bits_of(*old(visited)),
            stack0 == old(stack)@,
            forall|y: int| 0 <= y < n && marks0[y] ==> bits_of(*visited)[y],
            forall|y: int|
                0 <= y < n && bits_of(*visited)[y] && !marks0[y] ==> stack@.contains(y as usize),
            forall|y: usize| stack0.contains(y) ==> stack@.contains(y),
            forall|j: int|
                0 <= j < stack@.len() ==> #[trigger] stack@[j] < n && bits_of(
                    *visited,
                )[stack@[j] as int],
            forall|j: int| 0 <= j < k ==> bits_of(*visited)[#[trigger] list@[j] as int],
            unmarked(bits_of(*visited), n as int) + stack@.len() == unmarked(marks0, n as int)
                + stack0.len(),
            x == from || reach(g, from, x),
            forall|j: int| 0 <= j < stack@.len() ==> reach(g, from, #[trigger] stack@[j]),
        decreases list.len() - k,
    {
        let e = list[k];
        assert(e == g[x as int][k as int]);
        proof {
            assert(g[x as int].contains(e));
            if x == from {
                lemma_reach_edge(g, from, e);
            } else {
                lemma_reach_step(g, from, x, e);
            }
        }
        if e == avoid || e == from {
            return true;
        }
        if !bitset_contains(visited, e) {
            let ghost m0 = bits_of(*visited);
            let ghost s0 = stack@;
            bitset_set(visited, e, true);
            stack.push(e);
            proof {
                lemma_unmarked_set(m0, e as int, n as int);
                assert(stack@[stack@.len() - 1] == e);
                assert forall|y: usize| s0.contains(y) implies stack@.contains(y) by {
                    let j = choose|j: int| 0 <= j < s0.len() && s0[j] == y;
                    assert(stack@[j] == y);
                }
            }
        }
        k += 1;
    }
    false
}

/// Marks what can be reached from `from` by one edge or more, and tells whether `from` or
/// `avoid` is among it; the search ends as soon as it meets one of the two.
fn ds_dfs(outedges: &Vec<Vec<usize>>, visited: &mut FixedBitSet, from: usize, avoid: usize) -> (found:
    bool)
    requires
        lists_in_range(lists_of(outedges@), outedges@.len() as int),
        bits_of(*old(visited)).len() == outedges@.len(),
        from < outedges@.len(),
        avoid < outedges@.len(),
        closed(bits_of(*old(visited)), lists_of(outedges@)),
        !bits_of(*old(visited))[from as int],
        !bits_of(*old(visited))[avoid as int],
    ensures
        bits_of(*final(visited)).len() == outedges@.len(),
        found ==> reach(lists_of(outedges@), from, avoid) || reach(
            lists_of(outedges@),
            from,
            from,
        ),
        !found ==> closed(bits_of(*final(visited)), lists_of(outedges@)),
        !found ==> covers(bits_of(*final(visited)), lists_of(outedges@), from as int),
        !found ==> !bits_of(*final(visited))[from as int] && !bits_of(*final(visited))[avoid as int],
        forall|x: int|
            0 <= x < outedges@.len() && bits_of(*old(visited))[x] ==> bits_of(*final(visited))[x],
{
    let n = outedges.len();
    let ghost g = lists_of(outedges@);
    let ghost start = bits_of(*visited);
    let mut stack: Vec<usize> = Vec::new();
    if scan(outedges, visited, &mut stack, from, from, avoid) {
        return true;
    }
    loop
        invariant
            n == outedges@.len(),
            g == lists_of(outedges@),
            lists_in_range(g, n as int),
            bits_of(*visited).len() == n,
            from < n,
            avoid < n,
            !bits_of(*visited)[from as int],
            !bits_of(*visited)[avoid as int],
            start == bits_of(*old(visited)),
            forall|x: int| 0 <= x < n && start[x] ==> bits_of(*visited)[x],
            forall|k: int|
                0 <= k < stack@.len() ==> #[trigger] stack@[k] < n && bits_of(
                    *visited,
                )[stack@[k] as int],
            covers(bits_of(*visited), g, from as int),
            half_closed(bits_of(*visited), g, stack@),
            forall|k: int| 0 <= k < stack@.len() ==> reach(g, from, #[trigger] stack@[k]),
        decreases unmarked(bits_of(*visited), n as int) + stack@.len(),
    {
        let ghost m1 = bits_of(*visited);
        let ghost s1 = stack@;
        match stack.pop() {
            None => {
                return false;
            },
            Some(x) => {
                let ghost s2 = stack@;
                assert(s1[s1.len() - 1] == x);
                if scan(outedges, visited, &mut stack, x, from, avoid) {
                    return true;
                }
                proof {
                    let m = bits_of(*visited);
                    assert(s2.len() == s1.len() - 1);
                    lemma_unmarked_nonneg(m, n as int);
                    lemma_unmarked_nonneg(m1, n as int);
                    assert(unmarked(m, n as int) + stack@.len() == unmarked(m1, n as int)
                        + s2.len());
                    assert forall|y: int, k: int|
                        0 <= y < g.len() && m[y] && !stack@.contains(y as usize) && 0 <= k
                            < g[y].len() implies m[#[trigger] g[y][k] as int] by {
                        if y == x {
                        } else if m1[y] {
                            if s1.contains(y as usize) {
                                let q = choose|q: int| 0 <= q < s1.len() && s1[q] == y as usize;
                                assert(s2[q] == y as usize);
                                assert(s2.contains(y as usize));
                            } else {
                                assert(m1[g[y][k] as int]);
                            }
                        }
                    }
                }
            },
        }
    }
}

/// What a search that found no way from one of two clusters to the other leaves behind: the
/// marks are closed under the edges and spare the two; they cover the edges of both, or
/// those of the one from which alone the search set out, the other being marked by the
/// search before the last merge, which spared the first.
pub open spec fn mergeable(
    marks: Seq<bool>,
    mid: Seq<bool>,
    g: Seq<Seq<usize>>,
    u: int,
    v: int,
) -> bool {
    &&& closed(marks, g)
    &&& !marks[u] && !marks[v]
    &&& {
        ||| covers(marks, g, u) && covers(marks, g, v)
        ||| mid[u] && !mid[v] && covers(marks, g, v)
        ||| mid[v] && !mid[u] && covers(marks, g, u)
    }
}

/// Whether two clusters can be merged without the order among clusters turning into a circle:
/// neither can be reached from the other along the edges. `visited` is cleared first and
/// left with the clusters that the search has passed. Where the search before the last merge
/// passed one of the two and not the other, only the way from the other to the one is
/// searched: there is none the other way round.
pub fn disjoint_set_po_exists(
    visited: &mut FixedBitSet,
    outedges: &Vec<Vec<usize>>,
    u: usize,
    v: usize,
    mid_visited: &FixedBitSet,
) -> (ok: bool)
    requires
        lists_in_range(lists_of(outedges@), outedges@.len() as int),
        bits_of(*old(visited)).len() == outedges@.len(),
        bits_of(*mid_visited).len() == outedges@.len(),
        u < outedges@.len(),
        v < outedges@.len(),
    ensures
        bits_of(*final(visited)).len() == outedges@.len(),
        ok ==> mergeable(
            bits_of(*final(visited)),
            bits_of(*mid_visited),
            lists_of(outedges@),
            u as int,
            v as int,
        ),
        ok && closed(bits_of(*mid_visited), lists_of(outedges@)) ==> !reach(
            lists_of(outedges@),
            u,
            v,
        ) && !reach(lists_of(outedges@), v, u),
        !ok ==> reach(lists_of(outedges@), u, v) || reach(lists_of(outedges@), v, u) || reach(
            lists_of(outedges@),
            u,
            u,
        ) || reach(lists_of(outedges@), v, v),
{
    let ghost g = lists_of(outedges@);
    bitset_clear(visited);
    let mid_u = bitset_contains(mid_visited, u);
    let mid_v = bitset_contains(mid_visited, v);
    if mid_u == mid_v {
        if ds_dfs(outedges, visited, u, v) {
            return false;
        }
        if ds_dfs(outedges, visited, v, u) {
            return false;
        }
    } else if mid_u {
        if ds_dfs(outedges, visited, v, u) {
            return false;
        }
    } else {
        if ds_dfs(outedges, visited, u, v) {
            return false;
        }
    }
    proof {
        if closed(bits_of(*mid_visited), g) {
            lemma_mergeable_apart(bits_of(*visited), bits_of(*mid_visited), g, u, v);
        }
    }
    true
}

/// Where two clusters can be merged, no walk leads from one to the other.
pub proof fn lemma_mergeable_apart(
    marks: Seq<bool>,
    mid: Seq<bool>,
    g: Seq<Seq<usize>>,
    u: usize,
    v: usize,
)
    requires
        mergeable(marks, mid, g, u as int, v as int),
        closed(mid, g),
    ensures
        !reach(g, u, v),
        !reach(g, v, u),
{
    if reach(g, u, v) {
        let p = choose|p: Seq<usize>| #[trigger] is_walk(g, p) && p[0] == u && p[p.len() - 1] == v;
        if covers(marks, g, u as int) {
            lemma_walk_marked(marks, g, p, p.len() - 1);
        } else {
            lemma_walk_marked(mid, g, p, p.len() - 1);
        }
    }
    if reach(g, v, u) {
        let p = choose|p: Seq<usize>| #[trigger] is_walk(g, p) && p[0] == v && p[p.len() - 1] == u;
        if covers(marks, g, v as int) {
            lemma_walk_marked(marks, g, p, p.len() - 1);
        } else {
            lemma_walk_marked(mid, g, p, p.len() - 1);
        }
    }
}

/// Whether `p` comes before `q`: in an earlier constraint, or earlier in the same.
pub open spec fn lex_lt(p: Pos, q: Pos) -> bool {
    p.0 < q.0 || (p.0 == q.0 && p.1 < q.1)
}

/// The sizes of the first `k` clusters that have not been absorbed, added up.
pub open spec fn live_total(sizes: Seq<usize>, dead: Seq<bool>, k: int) -> int
    decreases k,
{
    if k <= 0 {
        0
    } else {
        live_total(sizes, dead, k - 1) + (if dead[k - 1] {
            0int
        } else {
            sizes[k - 1] as int
        })
    }
}

/// The maps of a vector of maps.
pub open spec fn maps_of(v: Seq<AHashMap<u64, u64>>) -> Seq<Map<u64, u64>> {
    Seq::new(v.len(), |i: int| entries_of(v[i]))
}

/// The sets of a vector of bitmaps.
pub open spec fn sets_of(v: Seq<RoaringBitmap>) -> Seq<Set<u32>> {
    Seq::new(v.len(), |i: int| members_of(v[i]))
}

pub proof fn lemma_offset_rises(counts: Seq<usize>, a: int, b: int)
    requires
        0 <= a <= b,
    ensures
        offset(counts, a) <= offset(counts, b),
    decreases b,
{
    if a < b {
        lemma_offset_rises(counts, a, b - 1);
    }
}

/// Columns are numbered constraint by constraint, and within a constraint in their order.
pub proof fn lemma_node_order(counts: Seq<usize>, p: Pos, q: Pos)
    requires
        p.0 < counts.len(),
        q.0 < counts.len(),
        p.1 < counts[p.0 as int],
        q.1 < counts[q.0 as int],
        node_of(counts, p) < node_of(counts, q),
    ensures
        lex_lt(p, q),
{
    if q.0 < p.0 {
        lemma_offset_rises(counts, q.0 as int + 1, p.0 as int);
    }
}

/// The state of the tracer: the clusters built so far, the order that the constraints put
/// on them, and the weights between them.
pub struct Tracer {
    pub n: usize,
    pub pos: Vec<(u32, u32)>,
    pub clusters: UnionFind<usize>,
    pub rows: Vec<RoaringBitmap>,
    pub cluster_sizes: Vec<usize>,
    pub weightmap: Vec<AHashMap<u64, u64>>,
    pub pq: PairQueue,
    pub order_outedges: Vec<Vec<usize>>,
    pub order_inedges: Vec<Vec<usize>>,
    pub absorbed: FixedBitSet,
    pub visited: FixedBitSet,
    pub mid_visited: FixedBitSet,
    pub invalidated: AHashSet<(usize, usize)>,
    pub rank: Ghost<Seq<int>>,
    pub bound: Ghost<int>,
}

/// What holds of the order among clusters: edges join live clusters, the two lists of edges
/// agree, the columns of a constraint hang together by edges, some ranking rises along every
/// edge, and no cluster holds two columns of one constraint.
pub open spec fn order_inv(
    n: int,
    pos: Seq<Pos>,
    reps: Seq<usize>,
    dead: Seq<bool>,
    out: Seq<Seq<usize>>,
    inn: Seq<Seq<usize>>,
    rows: Seq<Set<u32>>,
    rank: Seq<int>,
    bound: int,
) -> bool {
    &&& pos.len() == n && reps.len() == n && dead.len() == n && out.len() == n && inn.len() == n
        && rows.len() == n && rank.len() == n
    &&& forall|i: int, j: int| 0 <= i < j < n ==> lex_lt(pos[i], pos[j])
    &&& forall|i: int|
        0 <= i < n ==> (#[trigger] reps[i]) < n && !dead[reps[i] as int] && (!dead[i] ==> reps[i]
            == i)
    &&& forall|x: int, y: usize|
        0 <= x < n && #[trigger] out[x].contains(y) ==> y < n && !dead[x] && !dead[y as int]
            && rank[x] < rank[y as int]
    &&& forall|x: int, y: usize|
        0 <= x < n && #[trigger] inn[x].contains(y) ==> y < n && !dead[x] && !dead[y as int]
    &&& forall|x: usize, y: usize|
        #![trigger out[x as int].contains(y)]
        #![trigger inn[y as int].contains(x)]
        x < n && y < n ==> (out[x as int].contains(y) <==> inn[y as int].contains(x))
    &&& forall|i: int|
        0 <= i && i + 1 < n && pos[i].0 == pos[i + 1].0 ==> out[(#[trigger] reps[i]) as int].contains(
            reps[i + 1],
        )
    &&& forall|x: int| 0 <= x < n ==> 0 <= #[trigger] rank[x] < bound
    &&& forall|i: int| 0 <= i < n ==> rows[(#[trigger] reps[i]) as int].contains(pos[i].0)
    &&& forall|i: int, j: int|
        0 <= i < n && 0 <= j < n && i != j && #[trigger] reps[i] == #[trigger] reps[j] ==> pos[i].0
            != pos[j].0
}

/// What holds of the weights: every key and every waiting candidate names clusters, and no
/// weight is above `WEIGHT_CAP`.
pub open spec fn weights_inv(n: int, maps: Seq<Map<u64, u64>>, pq: Multiset<Candidate>) -> bool {
    &&& maps.len() == n
    &&& forall|x: int, k: u64|
        0 <= x < n && #[trigger] maps[x].contains_key(k) ==> k < n && maps[x][k] <= WEIGHT_CAP
    &&& forall|c: Candidate| #[trigger] pq.contains(c) ==> c.0 <= WEIGHT_CAP && c.1 < n && c.2 < n
}

impl Tracer {
    /// The invariant of the tracer.
    pub open spec fn inv(&self) -> bool {
        &&& order_inv(
            self.n as int,
            self.pos@,
            reps_of(self.clusters),
            bits_of(self.absorbed),
            lists_of(self.order_outedges@),
            lists_of(self.order_inedges@),
            sets_of(self.rows@),
            self.rank@,
            self.bound@,
        )
        &&& weights_inv(self.n as int, maps_of(self.weightmap@), self.pq@)
        &&& self.pq.wf()
        &&& bits_of(self.visited).len() == self.n
        &&& bits_of(self.mid_visited).len() == self.n
        &&& closed(bits_of(self.mid_visited), lists_of(self.order_outedges@))
        &&& self.cluster_sizes@.len() == self.n
        &&& live_total(self.cluster_sizes@, bits_of(self.absorbed), self.n as int) == self.n
        &&& forall|x: int| 0 <= x < self.n ==> #[trigger] self.cluster_sizes@[x] >= 1
    }

    /// What holds between the edges of the graph and the clusters: the edges of the order
    /// and the constraints of the clusters come from the columns, the clusters of the two
    /// nodes of every edge are one, cannot become one, or have a linkage among `pq`, and the
    /// pairs that were set aside cannot become one.
    pub open spec fn links(&self, labels: Seq<usize>, edges: Seq<Edge>, pq: Multiset<Candidate>) -> bool {
        &&& labels.len() == self.n
        &&& grounded(self.pos@, reps_of(self.clusters), lists_of(self.order_outedges@))
        &&& rows_grounded(
            self.pos@,
            reps_of(self.clusters),
            bits_of(self.absorbed),
            sets_of(self.rows@),
        )
        &&& ties_inv(
            labels,
            edges,
            reps_of(self.clusters),
            lists_of(self.order_outedges@),
            sets_of(self.rows@),
            maps_of(self.weightmap@),
            pq,
        )
        &&& barred_inv(
            self.n as int,
            bits_of(self.absorbed),
            lists_of(self.order_outedges@),
            sets_of(self.rows@),
            pairs_of(self.invalidated),
        )
    }

    /// Every cluster hangs together by edges of the graph, and every linkage between two
    /// live clusters comes from an edge between them.
    pub open spec fn bonds(&self, labels: Seq<usize>, edges: Seq<Edge>) -> bool {
        &&& clusters_joined(reps_of(self.clusters), labels, edges)
        &&& keys_grounded(
            reps_of(self.clusters),
            bits_of(self.absorbed),
            labels,
            edges,
            maps_of(self.weightmap@),
        )
    }
}


/// The edges of every cluster but `w` and `m` lead where they led, with `w` in place of `m`;
/// the edges of `w` are those that `w` and `m` had; `m` has none left.
pub open spec fn edges_moved(old_g: Seq<Seq<usize>>, new_g: Seq<Seq<usize>>, w: usize, m: usize) -> bool {
    &&& new_g.len() == old_g.len()
    &&& forall|x: int, y: usize|
        0 <= x < old_g.len() && x != w && x != m ==> (#[trigger] new_g[x].contains(y) <==> (y != m
            && old_g[x].contains(y)) || (y == w && old_g[x].contains(m)))
    &&& forall|y: usize| #[trigger]
        new_g[w as int].contains(y) <==> old_g[w as int].contains(y) || old_g[m as int].contains(y)
    &&& new_g[m as int].len() == 0
}

/// The ranking after clusters `l` and `r` became `w`: what the search passed moves up by
/// two bounds, what the search before the last merge passed by one, and the merged cluster
/// stands at `anchor`.
pub open spec fn lifted(
    rank: Seq<int>,
    marks: Seq<bool>,
    mid: Seq<bool>,
    bound: int,
    w: usize,
    anchor: int,
    use_mid: bool,
) -> Seq<int> {
    Seq::new(
        rank.len(),
        |x: int|
            if x == w {
                anchor
            } else if marks[x] {
                rank[x] + 2 * bound
            } else if use_mid && mid[x] {
                rank[x] + bound
            } else {
                rank[x]
            },
    )
}

/// No edge joins two clusters between which the search found no way, nor a cluster and
/// itself; what leads to one of the two was not passed by the search.
proof fn lemma_no_edge_between(
    n: int,
    pos: Seq<Pos>,
    reps: Seq<usize>,
    dead: Seq<bool>,
    out: Seq<Seq<usize>>,
    inn: Seq<Seq<usize>>,
    rows: Seq<Set<u32>>,
    rank: Seq<int>,
    bound: int,
    marks: Seq<bool>,
    mid: Seq<bool>,
    l: usize,
    r: usize,
)
    requires
        order_inv(n, pos, reps, dead, out, inn, rows, rank, bound),
        l < n,
        r < n,
        marks.len() == n,
        mid.len() == n,
        closed(mid, out),
        mergeable(marks, mid, out, l as int, r as int),
    ensures
        forall|y: usize| out[l as int].contains(y) || out[r as int].contains(y) ==> y != l && y != r,
        forall|x: usize|
            x < n && (out[x as int].contains(l) || out[x as int].contains(r)) ==> !marks[x as int],
        forall|x: int, y: usize| 0 <= x < n && out[x].contains(y) && marks[x] ==> marks[y as int],
        forall|x: int, y: usize| 0 <= x < n && out[x].contains(y) && mid[x] ==> mid[y as int],
{
    assert forall|x: int, y: usize| 0 <= x < n && out[x].contains(y) && marks[x] implies marks[y as int] by {
        let k = choose|k: int| 0 <= k < out[x].len() && out[x][k] == y;
        assert(out[x][k] == y);
    }
    assert forall|x: int, y: usize| 0 <= x < n && out[x].contains(y) && mid[x] implies mid[y as int] by {
        let k = choose|k: int| 0 <= k < out[x].len() && out[x][k] == y;
        assert(out[x][k] == y);
    }
    assert forall|y: usize| out[l as int].contains(y) || out[r as int].contains(y) implies y != l
        && y != r by {
        if out[l as int].contains(y) {
            let k = choose|k: int| 0 <= k < out[l as int].len() && out[l as int][k] == y;
            assert(out[l as int][k] == y);
            assert(rank[l as int] < rank[y as int]);
        } else {
            let k = choose|k: int| 0 <= k < out[r as int].len() && out[r as int][k] == y;
            assert(out[r as int][k] == y);
            assert(rank[r as int] < rank[y as int]);
        }
    }
}

/// Merging two clusters of which neither can be reached from the other, and which share no
/// constraint, keeps the order among clusters sound.
pub proof fn lemma_merge_keeps_order(
    n: int,
    pos: Seq<Pos>,
    reps: Seq<usize>,
    dead: Seq<bool>,
    out: Seq<Seq<usize>>,
    inn: Seq<Seq<usize>>,
    rows: Seq<Set<u32>>,
    rank: Seq<int>,
    bound: int,
    marks: Seq<bool>,
    mid: Seq<bool>,
    l: usize,
    r: usize,
    w: usize,
    m: usize,
    reps2: Seq<usize>,
    dead2: Seq<bool>,
    out2: Seq<Seq<usize>>,
    inn2: Seq<Seq<usize>>,
    rows2: Seq<Set<u32>>,
) -> (rank2: Seq<int>)
    requires
        order_inv(n, pos, reps, dead, out, inn, rows, rank, bound),
        l < n,
        r < n,
        l != r,
        !dead[l as int],
        !dead[r as int],
        (w == l && m == r) || (w == r && m == l),
        rows[l as int].disjoint(rows[r as int]),
        marks.len() == n,
        mid.len() == n,
        closed(mid, out),
        mergeable(marks, mid, out, l as int, r as int),
        reps2 == joined(reps, l, r, w),
        dead2 == dead.update(m as int, true),
        edges_moved(out, out2, w, m),
        edges_moved(inn, inn2, w, m),
        rows2.len() == n,
        rows2[w as int] == rows[l as int].union(rows[r as int]),
        forall|x: int| 0 <= x < n && x != w && x != m ==> rows2[x] == rows[x],
    ensures
        order_inv(n, pos, reps2, dead2, out2, inn2, rows2, rank2, 3 * bound),
{
    let both = covers(marks, out, l as int) && covers(marks, out, r as int);
    // the end that the search before the last merge passed, where only one way was searched
    let d = if mid[l as int] && !mid[r as int] {
        l
    } else {
        r
    };
    let anchor = if both {
        if rank[l as int] < rank[r as int] {
            rank[r as int]
        } else {
            rank[l as int]
        }
    } else {
        rank[d as int] + bound
    };
    let rank2 = lifted(rank, marks, mid, bound, w, anchor, !both);
    lemma_no_edge_between(n, pos, reps, dead, out, inn, rows, rank, bound, marks, mid, l, r);
    assert(0 <= rank[l as int] < bound && 0 <= rank[r as int] < bound);
    assert forall|x: usize| inn[l as int].contains(x) || inn[r as int].contains(x) implies x < n
        && !marks[x as int] && x != l && x != r by {
        if inn[l as int].contains(x) {
            assert(out[x as int].contains(l));
        } else {
            assert(out[x as int].contains(r));
        }
    }
    assert(reps[l as int] == l && reps[r as int] == r);
    // representatives
    assert forall|i: int| 0 <= i < n implies (#[trigger] reps2[i]) < n && !dead2[reps2[i] as int] && (
    !dead2[i] ==> reps2[i] == i) by {
        assert(reps[i] < n);
    }
    // edges out
    assert forall|x: int, y: usize| 0 <= x < n && #[trigger] out2[x].contains(y) implies y < n
        && !dead2[x] && !dead2[y as int] && rank2[x] < rank2[y as int] by {
        if x == m {
            assert(out2[x].len() == 0);
            let k = choose|k: int| 0 <= k < out2[x].len() && out2[x][k] == y;
        } else if x == w {
            assert(out[l as int].contains(y) || out[r as int].contains(y));
            assert(0 <= rank[y as int] < bound);
            if both {
                if out[l as int].contains(y) {
                    let k = choose|k: int| 0 <= k < out[l as int].len() && out[l as int][k] == y;
                    assert(marks[out[l as int][k] as int]);
                } else {
                    let k = choose|k: int| 0 <= k < out[r as int].len() && out[r as int][k] == y;
                    assert(marks[out[r as int][k] as int]);
                }
            } else {
                let o = if d == l {
                    r
                } else {
                    l
                };
                assert(mid[d as int] && !mid[o as int]);
                if out[o as int].contains(y) {
                    let k = choose|k: int| 0 <= k < out[o as int].len() && out[o as int][k] == y;
                    assert(marks[out[o as int][k] as int]);
                } else {
                    assert(out[d as int].contains(y));
                    assert(mid[y as int]);
                    assert(rank[d as int] < rank[y as int]);
                }
            }
        } else {
            assert(0 <= rank[x] < bound);
            if y == w {
                assert(out[x].contains(w) || out[x].contains(m));
                assert(out[x].contains(l) || out[x].contains(r));
                assert(!marks[x]);
                if !both {
                    let o = if d == l {
                        r
                    } else {
                        l
                    };
                    if out[x].contains(o) {
                        assert(!mid[x]);
                        assert(rank[x] < rank[o as int]);
                    } else {
                        assert(rank[x] < rank[d as int]);
                    }
                }
            } else {
                assert(out[x].contains(y));
                assert(0 <= rank[y as int] < bound);
            }
        }
    }
    assert forall|x: int, y: usize| 0 <= x < n && #[trigger] inn2[x].contains(y) implies y < n
        && !dead2[x] && !dead2[y as int] by {
        if x == m {
            assert(inn2[x].len() == 0);
            let k = choose|k: int| 0 <= k < inn2[x].len() && inn2[x][k] == y;
        } else if x == w {
            assert(inn[l as int].contains(y) || inn[r as int].contains(y));
        } else {
            if y == w {
                assert(inn[x].contains(w) || inn[x].contains(m));
            } else {
                assert(inn[x].contains(y));
            }
        }
    }
    // the two lists agree
    assert forall|xu: usize, yu: usize|
        #![trigger out2[xu as int].contains(yu)]
        #![trigger inn2[yu as int].contains(xu)]
        xu < n && yu < n implies (out2[xu as int].contains(yu) <==> inn2[yu as int].contains(xu)) by {
        let x = xu as int;
        let y = yu as int;
        assert(out[x].contains(yu) <==> inn[y].contains(xu));
        assert(out[x].contains(m) <==> inn[m as int].contains(xu));
        assert(out[x].contains(w) <==> inn[w as int].contains(xu));
        assert(out[m as int].contains(yu) <==> inn[y].contains(m));
        assert(out[w as int].contains(yu) <==> inn[y].contains(w));
        assert(!out[l as int].contains(l) && !out[l as int].contains(r) && !out[r as int].contains(l)
            && !out[r as int].contains(r));
        assert(!inn[l as int].contains(l) && !inn[l as int].contains(r) && !inn[r as int].contains(l)
            && !inn[r as int].contains(r));
        if x == m {
            if out2[x].contains(yu) {
                let k = choose|k: int| 0 <= k < out2[x].len() && out2[x][k] == yu;
            }
        }
        if y == m {
            if inn2[y].contains(xu) {
                let k = choose|k: int| 0 <= k < inn2[y].len() && inn2[y][k] == xu;
            }
        }
    }
    // the columns of a constraint hang together
    assert forall|i: int| 0 <= i && i + 1 < n && pos[i].0 == pos[i + 1].0 implies out2[(
    #[trigger] reps2[i]) as int].contains(reps2[i + 1]) by {
        assert(out[reps[i] as int].contains(reps[i + 1]));
        assert(reps[i] < n && reps[i + 1] < n);
        if reps[i] == l || reps[i] == r {
            assert(reps[i + 1] != l && reps[i + 1] != r);
        }
    }
    assert forall|x: int| 0 <= x < n implies 0 <= #[trigger] rank2[x] < 3 * bound by {
        assert(0 <= rank[x] < bound);
    }
    assert forall|i: int| 0 <= i < n implies rows2[(#[trigger] reps2[i]) as int].contains(pos[i].0) by {
        assert(rows[reps[i] as int].contains(pos[i].0));
        assert(reps[i] != m || reps[i] == l || reps[i] == r);
    }
    assert forall|i: int, j: int|
        0 <= i < n && 0 <= j < n && i != j && #[trigger] reps2[i] == #[trigger] reps2[j] implies pos[i].0
        != pos[j].0 by {
        assert(rows[reps[i] as int].contains(pos[i].0));
        assert(rows[reps[j] as int].contains(pos[j].0));
        if reps[i] != reps[j] {
            assert((reps[i] == l && reps[j] == r) || (reps[i] == r && reps[j] == l));
        }
    }
    rank2
}

/// The marks of a search that spared two clusters stay closed under the edges when the two
/// are merged.
proof fn lemma_closed_after(
    marks: Seq<bool>,
    out: Seq<Seq<usize>>,
    out2: Seq<Seq<usize>>,
    w: usize,
    m: usize,
)
    requires
        closed(marks, out),
        w < out.len(),
        m < out.len(),
        !marks[w as int],
        !marks[m as int],
        edges_moved(out, out2, w, m),
    ensures
        closed(marks, out2),
{
    assert forall|x: int, k: int| 0 <= x < out2.len() && marks[x] && 0 <= k < out2[x].len() implies marks[(
    #[trigger] out2[x][k]) as int] by {
        let y = out2[x][k];
        assert(out2[x].contains(y));
        assert((y != m && out[x].contains(y)) || (y == w && out[x].contains(m)));
        if out[x].contains(m) {
            let j = choose|j: int| 0 <= j < out[x].len() && out[x][j] == m;
            assert(marks[out[x][j] as int]);
        }
        let j = choose|j: int| 0 <= j < out[x].len() && out[x][j] == y;
        assert(marks[out[x][j] as int]);
    }
}

proof fn lemma_live_total_fresh(sizes: Seq<usize>, dead: Seq<bool>, k: int)
    requires
        0 <= k <= sizes.len(),
        k <= dead.len(),
        forall|i: int| 0 <= i < k ==> sizes[i] == 1 && !dead[i],
    ensures
        live_total(sizes, dead, k) == k,
    decreases k,
{
    if k > 0 {
        lemma_live_total_fresh(sizes, dead, k - 1);
    }
}

/// The columns that have an edge, in the order of their nodes.
fn label_positions(graph: &Graph, Ghost(counts): Ghost<Seq<usize>>) -> (pos: Vec<(u32, u32)>)
    requires
        graph.wf(counts),
    ensures
        pos@.len() == graph.labels@.len(),
        forall|i: int|
            0 <= i < pos@.len() ==> #[trigger] pos@[i] == graph.node_pos@[graph.labels@[i] as int],
        forall|i: int, j: int| 0 <= i < j < pos@.len() ==> lex_lt(pos@[i], pos@[j]),
        forall|i: int|
            0 <= i < pos@.len() ==> (#[trigger] pos@[i]).0 < counts.len() && pos@[i].1
                < counts[pos@[i].0 as int],
{
    let n = graph.labels.len();
    let mut pos: Vec<(u32, u32)> = Vec::new();
    let mut i: usize = 0;
    while i < n
        invariant
            i <= n,
            n == graph.labels@.len(),
            graph.wf(counts),
            pos@.len() == i,
            forall|a: int|
                0 <= a < i ==> #[trigger] pos@[a] == graph.node_pos@[graph.labels@[a] as int],
        decreases n - i,
    {
        let l = graph.labels[i];
        assert(graph.labels@[i as int] < graph.size);
        pos.push(graph.node_pos[l]);
        i += 1;
    }
    proof {
        assert forall|a: int, b: int| 0 <= a < b < pos@.len() implies lex_lt(pos@[a], pos@[b]) by {
            let la = graph.labels@[a];
            let lb = graph.labels@[b];
            assert(la < lb);
            assert(la < graph.size && lb < graph.size);
            let p = graph.node_pos@[la as int];
            let q = graph.node_pos@[lb as int];
            lemma_node_order(counts, p, q);
        }
        assert forall|a: int| 0 <= a < pos@.len() implies (#[trigger] pos@[a]).0 < counts.len()
            && pos@[a].1 < counts[pos@[a].0 as int] by {
            let la = graph.labels@[a];
            assert(la < graph.size);
            let p = graph.node_pos@[la as int];
        }
    }
    pos
}

/// For each label its successor in the same constraint, and for each its predecessor.
fn chain_edges(pos: &Vec<(u32, u32)>) -> (r: (Vec<Vec<usize>>, Vec<Vec<usize>>))
    ensures
        r.0@.len() == pos@.len(),
        r.1@.len() == pos@.len(),
        forall|x: int, y: usize|
            0 <= x < pos@.len() ==> (#[trigger] r.0@[x]@.contains(y) <==> y == x + 1 && y
                < pos@.len() && pos@[x].0 == pos@[y as int].0),
        forall|x: int, y: usize|
            0 <= x < pos@.len() ==> (#[trigger] r.1@[x]@.contains(y) <==> y + 1 == x
                && pos@[x].0 == pos@[y as int].0),
{
    let n = pos.len();
    let mut out: Vec<Vec<usize>> = Vec::new();
    let mut inn: Vec<Vec<usize>> = Vec::new();
    let mut i: usize = 0;
    while i < n
        invariant
            i <= n,
            n == pos@.len(),
            out@.len() == i,
            inn@.len() == i,
            forall|x: int, y: usize|
                0 <= x < i ==> (#[trigger] out@[x]@.contains(y) <==> y == x + 1 && y < n
                    && pos@[x].0 == pos@[y as int].0),
            forall|x: int, y: usize|
                0 <= x < i ==> (#[trigger] inn@[x]@.contains(y) <==> y + 1 == x && pos@[x].0
                    == pos@[y as int].0),
        decreases n - i,
    {
        let mut o: Vec<usize> = Vec::new();
        let mut b: Vec<usize> = Vec::new();
        if i + 1 < n && pos[i].0 == pos[i + 1].0 {
            o.push(i + 1);
            assert(o@[0] == i + 1);
        }
        if i > 0 && pos[i - 1].0 == pos[i].0 {
            b.push(i - 1);
            assert(b@[0] == i - 1);
        }
        proof {
            assert forall|y: usize| #[trigger]
                o@.contains(y) <==> y == i + 1 && y < n && pos@[i as int].0 == pos@[y as int].0 by {
                if o@.contains(y) {
                    let k = choose|k: int| 0 <= k < o@.len() && o@[k] == y;
                }
            }
            assert forall|y: usize| #[trigger]
                b@.contains(y) <==> y + 1 == i && pos@[i as int].0 == pos@[y as int].0 by {
                if b@.contains(y) {
                    let k = choose|k: int| 0 <= k < b@.len() && b@[k] == y;
                }
            }
        }
        out.push(o);
        inn.push(b);
        i += 1;
    }
    (out, inn)
}

impl Tracer {
    /// The tracer before any merge: every label is a cluster of its own, the edges join the
    /// successive columns of each constraint, and the weights are those of the graph.
    fn new(graph: &Graph, Ghost(counts): Ghost<Seq<usize>>) -> (t: Self)
        requires
            graph.wf(counts),
        ensures
            t.inv(),
            t.links(graph.labels@, graph.sims.edges@, t.pq@),
            t.bonds(graph.labels@, graph.sims.edges@),
            fresh_start(
                t.n as int,
                graph.labels@,
                graph.sims.edges@,
                reps_of(t.clusters),
                bits_of(t.absorbed),
                pairs_of(t.invalidated),
                t.pq@,
            ),
            t.n == graph.labels@.len(),
            forall|i: int|
                0 <= i < t.n ==> #[trigger] t.pos@[i] == graph.node_pos@[graph.labels@[i] as int],
            forall|i: int|
                0 <= i < t.n ==> (#[trigger] t.pos@[i]).0 < counts.len() && t.pos@[i].1
                    < counts[t.pos@[i].0 as int],
    {
        let n = graph.labels.len();
        let pos = label_positions(graph, Ghost(counts));
        let (out, inn) = chain_edges(&pos);
        let mut node2init_cluster: Vec<usize> = Vec::new();
        let mut k: usize = 0;
        while k < graph.size
            invariant
                k <= graph.size,
                node2init_cluster@.len() == k,
                forall|a: int| 0 <= a < k ==> node2init_cluster@[a] == 0,
            decreases graph.size - k,
        {
            node2init_cluster.push(0);
            k += 1;
        }
        let mut rows: Vec<RoaringBitmap> = Vec::new();
        let mut cluster_sizes: Vec<usize> = Vec::new();
        let mut weightmap: Vec<AHashMap<u64, u64>> = Vec::new();
        let mut i: usize = 0;
        while i < n
            invariant
                i <= n,
                n == graph.labels@.len(),
                n == pos@.len(),
                graph.wf(counts),
                node2init_cluster@.len() == graph.size,
                forall|a: int| 0 <= a < graph.size ==> #[trigger] node2init_cluster@[a] < n || n == 0,
                rows@.len() == i,
                cluster_sizes@.len() == i,
                weightmap@.len() == i,
                forall|a: int| 0 <= a < i ==> members_of(#[trigger] rows@[a]).contains(pos@[a].0),
                forall|a: int, k: u32|
                    0 <= a < i && #[trigger] members_of(rows@[a]).contains(k) ==> k == pos@[a].0,
                forall|a: int|
                    0 <= a < i ==> node2init_cluster@[(#[trigger] graph.labels@[a]) as int] == a,
                forall|a: int| 0 <= a < i ==> #[trigger] cluster_sizes@[a] == 1,
                forall|a: int, key: u64|
                    0 <= a < i ==> !(#[trigger] entries_of(weightmap@[a]).contains_key(key)),
            decreases n - i,
        {
            let l = graph.labels[i];
            assert(graph.labels@[i as int] < graph.size);
            assert forall|a: int| 0 <= a < i implies (#[trigger] graph.labels@[a]) != l by {
                assert(graph.labels@[a] < graph.labels@[i as int]);
            }
            node2init_cluster[l] = i;
            let mut row = rows_new();
            rows_insert(&mut row, pos[i].0);
            rows.push(row);
            cluster_sizes.push(1);
            weightmap.push(entries_new());
            i += 1;
        }
        let mut pq = PairQueue::new();
        let m = graph.sims.edges.len();
        let mut e: usize = 0;
        while e < m
            invariant
                e <= m,
                m == graph.sims.edges@.len(),
                graph.wf(counts),
                n == graph.labels@.len(),
                node2init_cluster@.len() == graph.size,
                forall|a: int| 0 <= a < graph.size ==> #[trigger] node2init_cluster@[a] < n || n == 0,
                weightmap@.len() == n,
                weights_inv(n as int, maps_of(weightmap@), pq@),
                pq.wf(),
                forall|a: int|
                    0 <= a < n ==> node2init_cluster@[(#[trigger] graph.labels@[a]) as int] == a,
                forall|j: int, a: int, b: int|
                    #[trigger] is_end(graph.labels@, graph.sims.edges@, j, a, b) && j < e ==> linked(
                        maps_of(weightmap@),
                        pq@,
                        a as usize,
                        b as usize,
                    ),
                forall|c: Candidate|
                    #[trigger] pq@.contains(c) ==> sourced(graph.labels@, graph.sims.edges@, c),
                forall|x: int, k: u64|
                    0 <= x < n && #[trigger] maps_of(weightmap@)[x].contains_key(k) ==> bond(
                        graph.labels@,
                        graph.sims.edges@,
                        x,
                        k as int,
                    ),
            decreases m - e,
        {
            let edge = graph.sims.edges[e];
            assert(edge == graph.sims.edges@[e as int]);
            assert(edge.u < edge.v < graph.size);
            proof {
                graph.sims.lemma_weight_at(e as int);
            }
            let lhs = node2init_cluster[edge.u];
            let rhs = node2init_cluster[edge.v];
            let ghost maps_in = maps_of(weightmap@);
            let ghost pq_in = pq@;
            proof {
                assert(is_endpoint(graph.sims.edges@, edge.u));
                assert(is_endpoint(graph.sims.edges@, edge.v));
                assert(graph.labels@.contains(edge.u));
                assert(graph.labels@.contains(edge.v));
                let a = choose|a: int| 0 <= a < graph.labels@.len() && graph.labels@[a] == edge.u;
                let b = choose|b: int| 0 <= b < graph.labels@.len() && graph.labels@[b] == edge.v;
                assert(node2init_cluster@[graph.labels@[a] as int] == a);
                assert(node2init_cluster@[graph.labels@[b] as int] == b);
                assert(lhs == a && rhs == b && a != b);
            }
            if n > 0 && lhs != rhs {
                let (a, b) = reorder(lhs, rhs);
                let ghost maps0 = maps_of(weightmap@);
                entries_insert(&mut weightmap[a], b as u64, edge.w);
                let ghost maps1 = maps_of(weightmap@);
                entries_insert(&mut weightmap[b], a as u64, edge.w);
                let ghost pq0 = pq@;
                pq.push((edge.w, a, b));
                proof {
                    broadcast use vstd::multiset::group_multiset_axioms;

                    let maps2 = maps_of(weightmap@);
                    assert forall|c: Candidate| #[trigger] pq@.contains(c) implies c.0 <= WEIGHT_CAP
                        && c.1 < n && c.2 < n by {
                        if c != (edge.w, a, b) {
                            assert(pq0.contains(c));
                        }
                    }
                    assert(maps1[a as int] == maps0[a as int].insert(b as u64, edge.w));
                    assert(maps2[b as int] == maps1[b as int].insert(a as u64, edge.w));
                    assert forall|x: int, key: u64|
                        0 <= x < n && #[trigger] maps2[x].contains_key(key) implies key < n
                        && maps2[x][key] <= WEIGHT_CAP by {
                        if x != a {
                            assert(maps1[x] == maps0[x]);
                        }
                        if x != b {
                            assert(maps2[x] == maps1[x]);
                        }
                        if maps0[x].contains_key(key) {
                        }
                    }
                    assert forall|x: int| 0 <= x < n && x != a implies maps1[x] == maps0[x] by {}
                    assert forall|x: int| 0 <= x < n && x != b implies maps2[x] == maps1[x] by {}
                    assert(a == lo(lhs, rhs) && b == hi(lhs, rhs));
                    assert(pq@.contains((edge.w, a, b)));
                    assert(is_end(graph.labels@, graph.sims.edges@, e as int, lhs as int, rhs as int));
                    assert(ends_at(graph.labels@, graph.sims.edges@, e as int, a as int, b as int));
                    assert(ends_at(graph.labels@, graph.sims.edges@, e as int, b as int, a as int));
                    assert forall|x: int, k: u64|
                        0 <= x < n && #[trigger] maps2[x].contains_key(k) implies bond(
                        graph.labels@,
                        graph.sims.edges@,
                        x,
                        k as int,
                    ) by {
                        if maps_in[x].contains_key(k) {
                        }
                    }
                    assert forall|c: Candidate| #[trigger] pq@.contains(c) implies sourced(
                        graph.labels@,
                        graph.sims.edges@,
                        c,
                    ) by {
                        if c != (edge.w, a, b) {
                            assert(pq_in.contains(c));
                        }
                    }
                    assert(linked(maps2, pq@, a, b) && linked(maps2, pq@, b, a));
                    assert forall|j: int, x: int, y: int|
                        #[trigger] is_end(graph.labels@, graph.sims.edges@, j, x, y) && j < e + 1
                        implies linked(maps2, pq@, x as usize, y as usize) by {
                        if j == e {
                            assert(graph.labels@[x] == edge.u && graph.labels@[y] == edge.v);
                            assert(x == lhs && y == rhs);
                        } else {
                            assert(linked(maps_in, pq_in, x as usize, y as usize));
                            let c = (maps_in[x][y as u64], lo(x as usize, y as usize), hi(
                                x as usize,
                                y as usize,
                            ));
                            assert(pq_in.contains(c));
                            assert(pq@.contains(c));
                            if (x == a && y == b) || (x == b && y == a) {
                            } else {
                                assert(maps2[x][y as u64] == maps_in[x][y as u64]);
                                assert(maps2[y][x as u64] == maps_in[y][x as u64]);
                            }
                        }
                    }
                }
            }
            e += 1;
        }
        let t = Tracer {
            n,
            pos,
            clusters: dsu_new(n),
            rows,
            cluster_sizes,
            weightmap,
            pq,
            order_outedges: out,
            order_inedges: inn,
            absorbed: bitset_new(n),
            visited: bitset_new(n),
            mid_visited: bitset_new(n),
            invalidated: pairs_new(),
            rank: Ghost(Seq::new(n as nat, |x: int| x)),
            bound: Ghost(n as int),
        };
        proof {
            lemma_live_total_fresh(t.cluster_sizes@, bits_of(t.absorbed), n as int);
            let o = lists_of(t.order_outedges@);
            let b = lists_of(t.order_inedges@);
            assert forall|x: int, y: usize| 0 <= x < n && #[trigger] o[x].contains(y) implies y < n
                && t.rank@[x] < t.rank@[y as int] by {
                assert(t.order_outedges@[x]@.contains(y));
            }
            assert forall|x: int, y: usize| 0 <= x < n && #[trigger] b[x].contains(y) implies y
                < n by {
                assert(t.order_inedges@[x]@.contains(y));
            }
            assert forall|x: usize, y: usize|
                #![trigger o[x as int].contains(y)]
                #![trigger b[y as int].contains(x)]
                x < n && y < n implies (o[x as int].contains(y) <==> b[y as int].contains(x)) by {
                assert(o[x as int] == t.order_outedges@[x as int]@);
                assert(b[y as int] == t.order_inedges@[y as int]@);
            }
            assert forall|i: int| 0 <= i && i + 1 < n && t.pos@[i].0 == t.pos@[i + 1].0 implies o[(
            #[trigger] reps_of(t.clusters)[i]) as int].contains(reps_of(t.clusters)[i + 1]) by {
                assert(o[i] == t.order_outedges@[i]@);
                assert(t.order_outedges@[i]@.contains((i + 1) as usize));
            }
            assert forall|i: int| 0 <= i < n implies sets_of(t.rows@)[(#[trigger] reps_of(
                t.clusters,
            )[i]) as int].contains(t.pos@[i].0) by {
                assert(members_of(t.rows@[i]).contains(t.pos@[i].0));
            }
            assert forall|i: int, j: int|
                0 <= i < n && 0 <= j < n && i != j && #[trigger] reps_of(t.clusters)[i]
                    == #[trigger] reps_of(t.clusters)[j] implies t.pos@[i].0 != t.pos@[j].0 by {
            }
            let reps = reps_of(t.clusters);
            assert forall|x: int, y: usize| 0 <= x < o.len() && #[trigger] o[x].contains(
                y,
            ) implies exists|i: int| #[trigger] ground_at(t.pos@, reps, i, x as usize, y) by {
                assert(t.order_outedges@[x]@.contains(y));
                assert(ground_at(t.pos@, reps, x, x as usize, y));
            }
            assert forall|x: int, k: u32|
                0 <= x < n && #[trigger] sets_of(t.rows@)[x].contains(k) implies exists|i: int| #[trigger]
                row_at(t.pos@, reps, i, x as usize, k) by {
                assert(members_of(t.rows@[x]).contains(k));
                assert(row_at(t.pos@, reps, x, x as usize, k));
            }
            assert forall|j: int, a: int, b: int| #[trigger]
                is_end(graph.labels@, graph.sims.edges@, j, a, b) implies tied(
                o,
                sets_of(t.rows@),
                maps_of(t.weightmap@),
                t.pq@,
                reps[a],
                reps[b],
            ) by {
                assert(linked(maps_of(t.weightmap@), t.pq@, a as usize, b as usize));
            }
            lemma_fresh_joined(reps, graph.labels@, graph.sims.edges@);
            assert forall|x: int, y: u64|
                0 <= x < reps.len() && y < reps.len() && x != y && #[trigger] maps_of(
                    t.weightmap@,
                )[x].contains_key(y) implies exists|a: int, b: int| #[trigger]
                bond_of(reps, graph.labels@, graph.sims.edges@, x, y as int, a, b) by {
                assert(bond(graph.labels@, graph.sims.edges@, x, y as int));
                assert(bond_of(reps, graph.labels@, graph.sims.edges@, x, y as int, x, y as int));
            }
        }
        t
    }
}


/// The list leads where it led, with `w` in place of `m`.
pub open spec fn renamed(old_list: Seq<usize>, new_list: Seq<usize>, w: usize, m: usize) -> bool {
    forall|y: usize| #[trigger]
        new_list.contains(y) <==> (y != m && old_list.contains(y)) || (y == w && old_list.contains(
            m,
        ))
}

/// Writes `w` wherever the list names `m`.
fn rename(list: &mut Vec<usize>, w: usize, m: usize)
    ensures
        renamed(old(list)@, final(list)@, w, m),
{
    let n = list.len();
    let mut i: usize = 0;
    while i < n
        invariant
            i <= n,
            n == list@.len(),
            n == old(list)@.len(),
            forall|k: int|
                0 <= k < i ==> list@[k] == (if old(list)@[k] == m {
                    w
                } else {
                    old(list)@[k]
                }),
            forall|k: int| i <= k < n ==> list@[k] == old(list)@[k],
        decreases n - i,
    {
        if list[i] == m {
            list[i] = w;
        }
        i += 1;
    }
    proof {
        let a = old(list)@;
        let b = list@;
        assert forall|y: usize| #[trigger] b.contains(y) implies (y != m && a.contains(y)) || (y == w
            && a.contains(m)) by {
            let k = choose|k: int| 0 <= k < b.len() && b[k] == y;
            if a[k] == m {
                assert(a.contains(m));
            } else {
                assert(a[k] == y);
            }
        }
        assert forall|y: usize| (y != m && a.contains(y)) || (y == w && a.contains(m)) implies b.contains(
            y,
        ) by {
            if y != m && a.contains(y) {
                let k = choose|k: int| 0 <= k < a.len() && a[k] == y;
                assert(b[k] == y);
            } else {
                let k = choose|k: int| 0 <= k < a.len() && a[k] == m;
                assert(b[k] == w);
            }
        }
    }
}

/// Hands the edges of `m` to `w`, and returns them.
fn take_edges(g: &mut Vec<Vec<usize>>, w: usize, m: usize) -> (t: Vec<usize>)
    requires
        w < old(g)@.len(),
        m < old(g)@.len(),
        w != m,
    ensures
        final(g)@.len() == old(g)@.len(),
        t@ == old(g)@[m as int]@,
        final(g)@[m as int]@.len() == 0,
        forall|y: usize| #[trigger]
            final(g)@[w as int]@.contains(y) <==> old(g)@[w as int]@.contains(y) || t@.contains(y),
        forall|x: int| 0 <= x < old(g)@.len() && x != w && x != m ==> final(g)@[x] == old(g)@[x],
{
    let mut t: Vec<usize> = Vec::new();
    core::mem::swap(&mut g[m], &mut t);
    let mut joined_list: Vec<usize> = Vec::new();
    core::mem::swap(&mut g[w], &mut joined_list);
    let ghost before = joined_list@;
    assert(before == old(g)@[w as int]@);
    let moved = t.as_slice();
    assert(moved@ == t@);
    union(&mut joined_list, moved);
    let ghost after = joined_list@;
    assert forall|y: usize| #[trigger] after.contains(y) <==> before.contains(y) || t@.contains(y) by {
        assert(after.contains(y) <==> before.contains(y) || moved@.contains(y));
    }
    core::mem::swap(&mut g[w], &mut joined_list);
    assert(g@[w as int]@ == after);
    t
}

/// In the lists of the clusters named by `sources`, writes `w` for `m`.
fn redirect(g: &mut Vec<Vec<usize>>, sources: &Vec<usize>, w: usize, m: usize)
    requires
        w != m,
        forall|k: int| 0 <= k < sources@.len() ==> #[trigger] sources@[k] < old(g)@.len(),
    ensures
        final(g)@.len() == old(g)@.len(),
        forall|x: usize|
            x < old(g)@.len() && sources@.contains(x) ==> renamed(
                old(g)@[x as int]@,
                #[trigger] final(g)@[x as int]@,
                w,
                m,
            ),
        forall|x: usize|
            x < old(g)@.len() && !sources@.contains(x) ==> #[trigger] final(g)@[x as int] == old(
                g,
            )@[x as int],
{
    let n = sources.len();
    let mut i: usize = 0;
    while i < n
        invariant
            i <= n,
            n == sources@.len(),
            w != m,
            g@.len() == old(g)@.len(),
            forall|k: int| 0 <= k < sources@.len() ==> #[trigger] sources@[k] < old(g)@.len(),
            forall|x: usize|
                x < g@.len() && sources@.take(i as int).contains(x) ==> renamed(
                    old(g)@[x as int]@,
                    #[trigger] g@[x as int]@,
                    w,
                    m,
                ),
            forall|x: usize|
                x < g@.len() && !sources@.take(i as int).contains(x) ==> #[trigger] g@[x as int]
                    == old(g)@[x as int],
        decreases n - i,
    {
        let x = sources[i];
        let ghost g0 = g@;
        rename(&mut g[x], w, m);
        proof {
            let t0 = sources@.take(i as int);
            let t1 = sources@.take(i as int + 1);
            assert(t1[i as int] == x);
            assert forall|y: usize| t1.contains(y) <==> t0.contains(y) || y == x by {
                if t1.contains(y) {
                    let k = choose|k: int| 0 <= k < t1.len() && t1[k] == y;
                    if k < i {
                        assert(t0[k] == y);
                    }
                }
                if t0.contains(y) {
                    let k = choose|k: int| 0 <= k < t0.len() && t0[k] == y;
                    assert(t1[k] == y);
                }
            }
            assert(renamed(g0[x as int]@, g@[x as int]@, w, m));
            assert forall|z: usize| z < g@.len() && t1.contains(z) implies renamed(
                old(g)@[z as int]@,
                #[trigger] g@[z as int]@,
                w,
                m,
            ) by {
                if z == x {
                    if t0.contains(x) {
                        assert(renamed(old(g)@[z as int]@, g0[z as int]@, w, m));
                        assert(!g0[z as int]@.contains(m));
                        assert forall|y: usize| #[trigger]
                            g@[z as int]@.contains(y) <==> (y != m && old(g)@[z as int]@.contains(y))
                                || (y == w && old(g)@[z as int]@.contains(m)) by {
                            assert(g0[z as int]@.contains(y) <==> (y != m && old(
                                g,
                            )@[z as int]@.contains(y)) || (y == w && old(g)@[z as int]@.contains(m)));
                        }
                    } else {
                        assert(g0[z as int] == old(g)@[z as int]);
                    }
                } else {
                    assert(g@[z as int] == g0[z as int]);
                    assert(t0.contains(z));
                }
            }
            assert forall|z: usize| z < g@.len() && !t1.contains(z) implies #[trigger] g@[z as int]
                == old(g)@[z as int] by {
                assert(g@[z as int] == g0[z as int]);
            }
        }
        i += 1;
    }
    assert(sources@.take(n as int) =~= sources@);
}

/// After the edges of `m` went to `w` and every cluster that led to `m` was redirected, the
/// edges have moved.
pub proof fn lemma_edges_moved(
    g0: Seq<Seq<usize>>,
    h0: Seq<Seq<usize>>,
    g1: Seq<Seq<usize>>,
    g2: Seq<Seq<usize>>,
    w: usize,
    m: usize,
)
    requires
        g0.len() == h0.len(),
        g0.len() <= usize::MAX,
        w < g0.len(),
        m < g0.len(),
        w != m,
        g1.len() == g0.len(),
        g2.len() == g0.len(),
        !g0[w as int].contains(m),
        !g0[m as int].contains(w),
        !g0[m as int].contains(m),
        !h0[m as int].contains(w),
        !h0[m as int].contains(m),
        forall|x: usize|
            x < g0.len() ==> (#[trigger] g0[x as int].contains(m) <==> h0[m as int].contains(x)),
        g1[m as int].len() == 0,
        forall|y: usize| #[trigger]
            g1[w as int].contains(y) <==> g0[w as int].contains(y) || g0[m as int].contains(y),
        forall|x: int| 0 <= x < g0.len() && x != w && x != m ==> g1[x] == g0[x],
        forall|x: usize|
            x < g0.len() && h0[m as int].contains(x) ==> renamed(
                g1[x as int],
                #[trigger] g2[x as int],
                w,
                m,
            ),
        forall|x: usize|
            x < g0.len() && !h0[m as int].contains(x) ==> #[trigger] g2[x as int] == g1[x as int],
    ensures
        edges_moved(g0, g2, w, m),
{
    assert forall|x: int, y: usize| 0 <= x < g0.len() && x != w && x != m implies (
    #[trigger] g2[x].contains(y) <==> (y != m && g0[x].contains(y)) || (y == w && g0[x].contains(
        m,
    ))) by {
        let xu = x as usize;
        assert(g0[xu as int].contains(m) <==> h0[m as int].contains(xu));
        assert(g1[x] == g0[x]);
        if h0[m as int].contains(xu) {
            assert(renamed(g1[xu as int], g2[xu as int], w, m));
        } else {
            assert(g2[xu as int] == g1[xu as int]);
        }
    }
    assert(g2[w as int] == g1[w as int]);
    assert(g2[m as int] == g1[m as int]);
}

proof fn lemma_live_total_two(sizes: Seq<usize>, dead: Seq<bool>, k: int, a: int, b: int)
    requires
        0 <= a < k <= sizes.len(),
        0 <= b < k,
        k <= dead.len(),
        a != b,
        !dead[a],
        !dead[b],
    ensures
        sizes[a] + sizes[b] <= live_total(sizes, dead, k),
    decreases k,
{
    if a == k - 1 {
        lemma_live_total_one(sizes, dead, k - 1, b);
    } else if b == k - 1 {
        lemma_live_total_one(sizes, dead, k - 1, a);
    } else {
        lemma_live_total_two(sizes, dead, k - 1, a, b);
    }
}

proof fn lemma_live_total_one(sizes: Seq<usize>, dead: Seq<bool>, k: int, a: int)
    requires
        0 <= k <= sizes.len(),
        k <= dead.len(),
    ensures
        live_total(sizes, dead, k) >= 0,
        0 <= a < k && !dead[a] ==> sizes[a] <= live_total(sizes, dead, k),
    decreases k,
{
    if k > 0 {
        lemma_live_total_one(sizes, dead, k - 1, a);
    }
}

proof fn lemma_live_total_merge(
    sizes: Seq<usize>,
    dead: Seq<bool>,
    k: int,
    w: int,
    m: int,
    total: usize,
)
    requires
        0 <= k <= sizes.len(),
        sizes.len() == dead.len(),
        0 <= w < sizes.len(),
        0 <= m < sizes.len(),
        w != m,
        !dead[w],
        !dead[m],
        total == sizes[w] + sizes[m],
    ensures
        live_total(sizes.update(w, total), dead.update(m, true), k) == live_total(sizes, dead, k) + (
        if w < k {
            sizes[m] as int
        } else {
            0int
        }) - (if m < k {
            sizes[m] as int
        } else {
            0int
        }),
    decreases k,
{
    if k > 0 {
        lemma_live_total_merge(sizes, dead, k - 1, w, m, total);
    }
}


/// The linkage of a cluster with the merger of two clusters that both have a weight to it:
/// the mean of the two weights, each counted as often as its cluster has columns, rounded
/// down.
pub open spec fn mean_linkage(a: u64, sl: usize, b: u64, sr: usize) -> int {
    (a * sl + b * sr) / (sl + sr)
}

/// The mean of two weights, each counted as often as its cluster has columns.
pub fn average(a: u64, sl: usize, b: u64, sr: usize) -> (v: u64)
    requires
        a <= WEIGHT_CAP,
        b <= WEIGHT_CAP,
        sl >= 1,
        sr >= 1,
    ensures
        v == mean_linkage(a, sl, b, sr),
        v <= WEIGHT_CAP,
{
    let la: u128 = a as u128;
    let lb: u128 = b as u128;
    let ll: u128 = sl as u128;
    let lr: u128 = sr as u128;
    assert(la * ll <= 0xffff_ffff * 0xffff_ffff_ffff_ffff && lb * lr <= 0xffff_ffff
        * 0xffff_ffff_ffff_ffff) by (nonlinear_arith)
        requires
            la <= 0xffff_ffff,
            lb <= 0xffff_ffff,
            ll <= 0xffff_ffff_ffff_ffff,
            lr <= 0xffff_ffff_ffff_ffff,
    ;
    let num: u128 = la * ll + lb * lr;
    let den: u128 = ll + lr;
    assert(num / den <= 0xffff_ffff) by (nonlinear_arith)
        requires
            num == la * ll + lb * lr,
            den == ll + lr,
            la <= 0xffff_ffff,
            lb <= 0xffff_ffff,
            ll >= 1,
            lr >= 1,
    {
        assert(la * ll <= 0xffff_ffff * ll);
        assert(lb * lr <= 0xffff_ffff * lr);
        assert(num <= 0xffff_ffff * den);
    }
    (num / den) as u64
}

/// The plan holds a new linkage for cluster `c`.
pub open spec fn planned(plan: Seq<(usize, u64)>, c: usize) -> bool {
    exists|q: int| 0 <= q < plan.len() && (#[trigger] plan[q]).0 == c
}

/// Links the clusters that had a weight to `l` or to `r` with `w`, which stands for the two
/// from now on, and lets each new linkage wait for its turn.
fn relink(
    weightmap: &mut Vec<AHashMap<u64, u64>>,
    pq: &mut PairQueue,
    absorbed: &FixedBitSet,
    n: usize,
    l: usize,
    r: usize,
    w: usize,
    sl: usize,
    sr: usize,
)
    requires
        weights_inv(n as int, maps_of(old(weightmap)@), old(pq)@),
        old(pq).wf(),
        bits_of(*absorbed).len() == n,
        l < n,
        r < n,
        w == l || w == r,
        sl >= 1,
        sr >= 1,
    ensures
        weights_inv(n as int, maps_of(final(weightmap)@), final(pq)@),
        final(pq).wf(),
        relinked(
            n as int,
            maps_of(old(weightmap)@),
            old(pq)@,
            bits_of(*absorbed),
            maps_of(final(weightmap)@),
            final(pq)@,
            l,
            r,
            w,
        ),
{
    let mut plan: Vec<(usize, u64)> = Vec::new();
    let keys_l = entries_keys(&weightmap[l]);
    let keys_r = entries_keys(&weightmap[r]);
    let ghost maps = maps_of(weightmap@);
    let ghost pq0 = pq@;
    let ghost dead = bits_of(*absorbed);
    assert(maps[l as int] == entries_of(weightmap@[l as int]));
    assert(maps[r as int] == entries_of(weightmap@[r as int]));
    let mut i: usize = 0;
    while i < keys_l.len()
        invariant
            i <= keys_l@.len(),
            l < n,
            r < n,
            sl >= 1,
            sr >= 1,
            dead == bits_of(*absorbed),
            dead.len() == n,
            maps == maps_of(weightmap@),
            pq@ == pq0,
            weights_inv(n as int, maps, pq@),
            pq.wf(),
            forall|k: u64| keys_l@.contains(k) <==> maps[l as int].contains_key(k),
            forall|j: int|
                0 <= j < plan@.len() ==> (#[trigger] plan@[j]).0 < n && plan@[j].1 <= WEIGHT_CAP
                    && plan@[j].0 != l && plan@[j].0 != r,
            forall|j: int|
                0 <= j < plan@.len() ==> from_pair(
                    n as int,
                    maps,
                    dead,
                    l,
                    r,
                    (#[trigger] plan@[j]).0 as u64,
                ),
            forall|j: int|
                0 <= j < i && (#[trigger] keys_l@[j]) != l && keys_l@[j] != r && !dead[keys_l@[j] as int]
                    ==> planned(plan@, keys_l@[j] as usize),
        decreases keys_l.len() - i,
    {
        let c = keys_l[i];
        assert(keys_l@.contains(c));
        assert(maps[l as int].contains_key(c));
        let cu = c as usize;
        let ghost plan0 = plan@;
        if cu != l && cu != r && !bitset_contains(absorbed, cu) {
            match entries_get(&weightmap[l], c) {
                Some(a) => {
                    let v = match entries_get(&weightmap[r], c) {
                        Some(b) => {
                            assert(maps[r as int].contains_key(c));
                            average(a, sl, b, sr)
                        },
                        None => a,
                    };
                    plan.push((cu, v));
                    assert(plan@[plan@.len() - 1].0 == cu);
                },
                None => {},
            }
        }
        proof {
            assert forall|j: int|
                0 <= j < i + 1 && (#[trigger] keys_l@[j]) != l && keys_l@[j] != r
                    && !dead[keys_l@[j] as int] implies planned(plan@, keys_l@[j] as usize) by {
                if j < i {
                    let q = choose|q: int|
                        0 <= q < plan0.len() && (#[trigger] plan0[q]).0 == keys_l@[j] as usize;
                    assert(plan@[q] == plan0[q]);
                } else {
                    assert(plan@[plan@.len() - 1].0 == cu);
                }
            }
        }
        i += 1;
    }
    proof {
        assert forall|k: u64|
            #[trigger] maps[l as int].contains_key(k) && k != l && k != r && !dead[k as int]
            implies planned(plan@, k as usize) by {
            assert(keys_l@.contains(k));
            let j = choose|j: int| 0 <= j < keys_l@.len() && keys_l@[j] == k;
            assert(keys_l@[j] == k);
        }
    }
    let mut i: usize = 0;
    while i < keys_r.len()
        invariant
            i <= keys_r@.len(),
            l < n,
            r < n,
            dead == bits_of(*absorbed),
            dead.len() == n,
            maps == maps_of(weightmap@),
            pq@ == pq0,
            weights_inv(n as int, maps, pq@),
            pq.wf(),
            forall|k: u64| keys_r@.contains(k) <==> maps[r as int].contains_key(k),
            forall|j: int|
                0 <= j < plan@.len() ==> (#[trigger] plan@[j]).0 < n && plan@[j].1 <= WEIGHT_CAP
                    && plan@[j].0 != l && plan@[j].0 != r,
            forall|j: int|
                0 <= j < plan@.len() ==> from_pair(
                    n as int,
                    maps,
                    dead,
                    l,
                    r,
                    (#[trigger] plan@[j]).0 as u64,
                ),
            forall|k: u64|
                #[trigger] maps[l as int].contains_key(k) && k != l && k != r && !dead[k as int]
                    ==> planned(plan@, k as usize),
            forall|j: int|
                0 <= j < i && (#[trigger] keys_r@[j]) != l && keys_r@[j] != r && !dead[keys_r@[j] as int]
                    ==> planned(plan@, keys_r@[j] as usize),
        decreases keys_r.len() - i,
    {
        let c = keys_r[i];
        assert(keys_r@.contains(c));
        assert(maps[r as int].contains_key(c));
        let cu = c as usize;
        let ghost plan0 = plan@;
        if cu != l && cu != r && !bitset_contains(absorbed, cu) {
            match (entries_get(&weightmap[l], c), entries_get(&weightmap[r], c)) {
                (None, Some(b)) => {
                    plan.push((cu, b));
                    assert(plan@[plan@.len() - 1].0 == cu);
                },
                _ => {},
            }
        }
        proof {
            assert forall|c2: usize| planned(plan0, c2) implies planned(plan@, c2) by {
                let q = choose|q: int| 0 <= q < plan0.len() && (#[trigger] plan0[q]).0 == c2;
                assert(plan@[q] == plan0[q]);
            }
            assert forall|j: int|
                0 <= j < i + 1 && (#[trigger] keys_r@[j]) != l && keys_r@[j] != r
                    && !dead[keys_r@[j] as int] implies planned(plan@, keys_r@[j] as usize) by {
                if j < i {
                    assert(planned(plan0, keys_r@[j] as usize));
                } else if maps[l as int].contains_key(c) {
                    assert(planned(plan0, c as usize));
                } else {
                    assert(plan@[plan@.len() - 1].0 == cu);
                }
            }
        }
        i += 1;
    }
    proof {
        assert forall|k: u64|
            #[trigger] maps[r as int].contains_key(k) && k != l && k != r && !dead[k as int]
            implies planned(plan@, k as usize) by {
            assert(keys_r@.contains(k));
            let j = choose|j: int| 0 <= j < keys_r@.len() && keys_r@[j] == k;
            assert(keys_r@[j] == k);
        }
    }
    let mut i: usize = 0;
    while i < plan.len()
        invariant
            i <= plan@.len(),
            w < n,
            l < n,
            r < n,
            w == l || w == r,
            weightmap@.len() == n,
            maps.len() == n,
            dead == bits_of(*absorbed),
            weights_inv(n as int, maps_of(weightmap@), pq@),
            forall|x: int, k: u64|
                0 <= x < n && #[trigger] maps_of(weightmap@)[x].contains_key(k) ==> maps[x].contains_key(
                    k,
                ) || (x == w && from_pair(n as int, maps, dead, l, r, k)) || (k == w && from_pair(
                    n as int,
                    maps,
                    dead,
                    l,
                    r,
                    x as u64,
                )),
            pq.wf(),
            forall|j: int|
                0 <= j < plan@.len() ==> (#[trigger] plan@[j]).0 < n && plan@[j].1 <= WEIGHT_CAP
                    && plan@[j].0 != l && plan@[j].0 != r,
            forall|j: int|
                0 <= j < plan@.len() ==> from_pair(
                    n as int,
                    maps,
                    dead,
                    l,
                    r,
                    (#[trigger] plan@[j]).0 as u64,
                ),
            forall|j: int|
                0 <= j < i ==> linked(maps_of(weightmap@), pq@, w, (#[trigger] plan@[j]).0),
            forall|x: int, k: u64|
                0 <= x < n && x != w && k != w && #[trigger] maps[x].contains_key(k) ==> maps_of(
                    weightmap@,
                )[x].contains_key(k) && maps_of(weightmap@)[x][k] == maps[x][k],
            forall|c: Candidate| pq0.contains(c) ==> #[trigger] pq@.contains(c),
        decreases plan.len() - i,
    {
        let (c, v) = plan[i];
        assert(plan@[i as int].0 < n);
        let ghost maps0 = maps_of(weightmap@);
        entries_insert(&mut weightmap[w], c as u64, v);
        let ghost maps1 = maps_of(weightmap@);
        entries_insert(&mut weightmap[c], w as u64, v);
        let ghost pq1 = pq@;
        let (a, b) = reorder(c, w);
        pq.push((v, a, b));
        proof {
            broadcast use vstd::multiset::group_multiset_axioms;

            let maps2 = maps_of(weightmap@);
            assert forall|x: Candidate| #[trigger] pq@.contains(x) implies x.0 <= WEIGHT_CAP && x.1
                < n && x.2 < n by {
                if x != (v, a, b) {
                    assert(pq1.contains(x));
                }
            }
            assert(maps1[w as int] == maps0[w as int].insert(c as u64, v));
            assert(maps2[c as int] == maps1[c as int].insert(w as u64, v));
            assert forall|x: int| 0 <= x < n && x != w implies maps1[x] == maps0[x] by {}
            assert forall|x: int| 0 <= x < n && x != c implies maps2[x] == maps1[x] by {}
            assert forall|x: int, key: u64|
                0 <= x < n && #[trigger] maps2[x].contains_key(key) implies key < n && maps2[x][key]
                <= WEIGHT_CAP by {
                if maps0[x].contains_key(key) {
                }
            }
            assert(a == lo(w, c) && b == hi(w, c));
            assert(pq@.contains((v, a, b)));
            assert forall|j: int| 0 <= j < i + 1 implies linked(
                maps2,
                pq@,
                w,
                (#[trigger] plan@[j]).0,
            ) by {
                let c2 = plan@[j].0;
                if c2 != c {
                    assert(linked(maps0, pq1, w, c2));
                    assert(maps2[c2 as int] == maps0[c2 as int]);
                    assert(pq@.contains((maps0[w as int][c2 as u64], lo(w, c2), hi(w, c2))));
                }
            }
            assert forall|x: int, k: u64|
                0 <= x < n && x != w && k != w && #[trigger] maps[x].contains_key(k) implies maps2[x].contains_key(
                k,
            ) && maps2[x][k] == maps[x][k] by {
                assert(maps0[x].contains_key(k));
            }
            assert forall|x: Candidate| pq0.contains(x) implies #[trigger] pq@.contains(x) by {
                assert(pq1.contains(x));
            }
            assert(from_pair(n as int, maps, dead, l, r, plan@[i as int].0 as u64));
            assert forall|x: int, k: u64|
                0 <= x < n && #[trigger] maps2[x].contains_key(k) implies maps[x].contains_key(k) || (x
                == w && from_pair(n as int, maps, dead, l, r, k)) || (k == w && from_pair(
                n as int,
                maps,
                dead,
                l,
                r,
                x as u64,
            )) by {
                if maps0[x].contains_key(k) {
                }
            }
        }
        i += 1;
    }
    proof {
        let maps2 = maps_of(weightmap@);
        assert forall|c: usize|
            c < n && !dead[c as int] && c != l && c != r && (maps[l as int].contains_key(c as u64)
                || maps[r as int].contains_key(c as u64)) implies #[trigger] linked(
            maps2,
            pq@,
            w,
            c,
        ) by {
            assert(planned(plan@, c));
            let q = choose|q: int| 0 <= q < plan@.len() && (#[trigger] plan@[q]).0 == c;
            assert(linked(maps2, pq@, w, plan@[q].0));
        }
    }
}

impl Tracer {
    /// Makes one cluster of `l` and `r`: one of the two stays and takes the columns, the
    /// constraints, the edges and the size of both; the other is marked as absorbed.
    fn merge(
        &mut self,
        l: usize,
        r: usize,
        Ghost(labels): Ghost<Seq<usize>>,
        Ghost(edges): Ghost<Seq<Edge>>,
        Ghost(pq0): Ghost<Multiset<Candidate>>,
    )
        requires
            old(self).inv(),
            old(self).links(labels, edges, pq0),
            old(self).bonds(labels, edges),
            maps_of(old(self).weightmap@)[l as int].contains_key(r as u64),
            forall|c: Candidate|
                #[trigger] pq0.contains(c) && !((c.1 == l && c.2 == r) || (c.1 == r && c.2 == l))
                    ==> old(self).pq@.contains(c),
            l < old(self).n,
            r < old(self).n,
            l != r,
            !bits_of(old(self).absorbed)[l as int],
            !bits_of(old(self).absorbed)[r as int],
            members_of(old(self).rows@[l as int]).disjoint(members_of(old(self).rows@[r as int])),
            mergeable(
                bits_of(old(self).visited),
                bits_of(old(self).mid_visited),
                lists_of(old(self).order_outedges@),
                l as int,
                r as int,
            ),
        ensures
            final(self).inv(),
            final(self).links(labels, edges, final(self).pq@),
            final(self).bonds(labels, edges),
            reps_of(final(self).clusters)[l as int] == reps_of(final(self).clusters)[r as int],
            forall|i: int, j: int|
                0 <= i < old(self).n && 0 <= j < old(self).n && reps_of(old(self).clusters)[i]
                    == reps_of(old(self).clusters)[j] ==> #[trigger] reps_of(
                    final(self).clusters,
                )[i] == #[trigger] reps_of(final(self).clusters)[j],
            final(self).n == old(self).n,
            final(self).pos == old(self).pos,
            unmarked(bits_of(final(self).absorbed), final(self).n as int) == unmarked(
                bits_of(old(self).absorbed),
                old(self).n as int,
            ) - 1,
    {
        let n = self.n;
        let ghost reps = reps_of(self.clusters);
        let ghost dead = bits_of(self.absorbed);
        let ghost out = lists_of(self.order_outedges@);
        let ghost inn = lists_of(self.order_inedges@);
        let ghost rows = sets_of(self.rows@);
        let ghost marks = bits_of(self.visited);
        let ghost mid = bits_of(self.mid_visited);
        let ghost sizes = self.cluster_sizes@;
        let ghost maps = maps_of(self.weightmap@);
        let ghost pq1 = self.pq@;
        assert(reps[l as int] == l && reps[r as int] == r);
        dsu_union(&mut self.clusters, l, r);
        let w = dsu_find(&self.clusters, l);
        let m = if l == w {
            r
        } else {
            l
        };
        proof {
            let ww = choose|ww: usize|
                (ww == reps[l as int] || ww == reps[r as int]) && reps_of(self.clusters) == joined(
                    reps,
                    reps[l as int],
                    reps[r as int],
                    ww,
                );
            assert(reps_of(self.clusters)[l as int] == ww);
            lemma_live_total_two(sizes, dead, n as int, l as int, r as int);
        }
        relink(
            &mut self.weightmap,
            &mut self.pq,
            &self.absorbed,
            n,
            l,
            r,
            w,
            self.cluster_sizes[l],
            self.cluster_sizes[r],
        );
        bitset_set(&mut self.absorbed, m, true);
        let t1 = take_edges(&mut self.order_outedges, w, m);
        let ghost out1 = lists_of(self.order_outedges@);
        let t2 = take_edges(&mut self.order_inedges, w, m);
        let ghost inn1 = lists_of(self.order_inedges@);
        proof {
            assert(t1@ == out[m as int]);
            assert(t2@ == inn[m as int]);
            assert forall|k: int| 0 <= k < t1@.len() implies #[trigger] t1@[k] < n by {
                assert(out[m as int].contains(t1@[k]));
            }
            assert forall|k: int| 0 <= k < t2@.len() implies #[trigger] t2@[k] < n by {
                assert(inn[m as int].contains(t2@[k]));
            }
        }
        redirect(&mut self.order_outedges, &t2, w, m);
        redirect(&mut self.order_inedges, &t1, w, m);
        let total = self.cluster_sizes[w] + self.cluster_sizes[m];
        self.cluster_sizes[w] = total;
        let mut rm = rows_new();
        core::mem::swap(&mut self.rows[m], &mut rm);
        rows_union_with(&mut self.rows[w], rm);
        self.mid_visited = bitset_clone(&self.visited);
        proof {
            let out2 = lists_of(self.order_outedges@);
            let inn2 = lists_of(self.order_inedges@);
            let rows2 = sets_of(self.rows@);
            // what the search found out
            lemma_no_edge_between(
                n as int,
                self.pos@,
                reps,
                dead,
                out,
                inn,
                rows,
                self.rank@,
                self.bound@,
                marks,
                mid,
                l,
                r,
            );
            assert(!inn[l as int].contains(l) && !inn[l as int].contains(r) && !inn[r as int].contains(
                l,
            ) && !inn[r as int].contains(r)) by {
                assert(out[l as int].contains(l) <==> inn[l as int].contains(l));
                assert(out[r as int].contains(l) <==> inn[l as int].contains(r));
                assert(out[l as int].contains(r) <==> inn[r as int].contains(l));
                assert(out[r as int].contains(r) <==> inn[r as int].contains(r));
            }
            assert forall|x: usize| x < n implies (#[trigger] out[x as int].contains(m)
                <==> inn[m as int].contains(x)) by {}
            assert forall|x: usize| x < n implies (#[trigger] inn[x as int].contains(m)
                <==> out[m as int].contains(x)) by {
                assert(out[m as int].contains(x) <==> inn[x as int].contains(m));
            }
            assert forall|x: int| 0 <= x < n && x != w && x != m implies out1[x] == out[x] by {
                assert(self.order_outedges@.len() == n);
            }
            assert forall|x: int| 0 <= x < n && x != w && x != m implies inn1[x] == inn[x] by {}
            lemma_edges_moved(out, inn, out1, out2, w, m);
            lemma_edges_moved(inn, out, inn1, inn2, w, m);
            assert(rows2[w as int] =~= rows[l as int].union(rows[r as int]));
            let rank2 = lemma_merge_keeps_order(
                n as int,
                self.pos@,
                reps,
                dead,
                out,
                inn,
                rows,
                self.rank@,
                self.bound@,
                marks,
                mid,
                l,
                r,
                w,
                m,
                reps_of(self.clusters),
                bits_of(self.absorbed),
                out2,
                inn2,
                rows2,
            );
            lemma_closed_after(marks, out, out2, w, m);
            assert forall|x: int, y: usize| 0 <= x < n && #[trigger] out[x].contains(y) implies y
                < n by {}
            lemma_merge_keeps_links(
                n as int,
                self.pos@,
                labels,
                edges,
                reps,
                dead,
                out,
                rows,
                maps,
                pq0,
                pq1,
                pairs_of(self.invalidated),
                l,
                r,
                w,
                m,
                reps_of(self.clusters),
                bits_of(self.absorbed),
                out2,
                rows2,
                maps_of(self.weightmap@),
                self.pq@,
            );
            lemma_merge_keeps_joined(
                labels,
                edges,
                reps,
                dead,
                maps,
                l,
                r,
                w,
                m,
                reps_of(self.clusters),
                bits_of(self.absorbed),
                maps_of(self.weightmap@),
            );
            lemma_live_total_merge(sizes, dead, n as int, w as int, m as int, total);
            lemma_unmarked_set(dead, m as int, n as int);
            self.rank = Ghost(rank2);
            self.bound = Ghost(3 * self.bound@);
        }
    }
}


/// What the ordering needs of the edges: they join live clusters, the two lists agree, and
/// some ranking rises along every edge.
pub open spec fn edges_sound(
    n: int,
    dead: Seq<bool>,
    out: Seq<Seq<usize>>,
    inn: Seq<Seq<usize>>,
    rank: Seq<int>,
    bound: int,
) -> bool {
    &&& n <= usize::MAX
    &&& dead.len() == n && out.len() == n && inn.len() == n && rank.len() == n
    &&& forall|x: int, y: usize|
        0 <= x < n && #[trigger] out[x].contains(y) ==> y < n && !dead[x] && !dead[y as int]
            && rank[x] < rank[y as int]
    &&& forall|x: int, y: usize|
        0 <= x < n && #[trigger] inn[x].contains(y) ==> y < n && !dead[x] && !dead[y as int]
    &&& forall|x: usize, y: usize|
        #![trigger out[x as int].contains(y)]
        #![trigger inn[y as int].contains(x)]
        x < n && y < n ==> (out[x as int].contains(y) <==> inn[y as int].contains(x))
    &&& forall|x: int| 0 <= x < n ==> 0 <= #[trigger] rank[x] < bound
}

/// Every cluster from which an edge leads to `c` has been put in the order.
pub open spec fn ready(inn: Seq<Seq<usize>>, done: Seq<bool>, c: int) -> bool {
    forall|k: int| 0 <= k < inn[c].len() ==> done[#[trigger] inn[c][k] as int]
}

/// Whether every cluster of the list has been put in the order.
fn all_done(list: &Vec<usize>, done: &Vec<bool>) -> (r: bool)
    requires
        forall|k: int| 0 <= k < list@.len() ==> #[trigger] list@[k] < done@.len(),
    ensures
        r == forall|k: int| 0 <= k < list@.len() ==> done@[#[trigger] list@[k] as int],
{
    let mut i: usize = 0;
    while i < list.len()
        invariant
            i <= list@.len(),
            forall|k: int| 0 <= k < list@.len() ==> #[trigger] list@[k] < done@.len(),
            forall|k: int| 0 <= k < i ==> done@[#[trigger] list@[k] as int],
        decreases list.len() - i,
    {
        if !done[list[i]] {
            return false;
        }
        i += 1;
    }
    true
}

/// With no cluster left waiting, every live cluster of rank below `r` is in the order.
proof fn lemma_all_placed(
    n: int,
    dead: Seq<bool>,
    out: Seq<Seq<usize>>,
    inn: Seq<Seq<usize>>,
    rank: Seq<int>,
    bound: int,
    done: Seq<bool>,
    r: int,
)
    requires
        edges_sound(n, dead, out, inn, rank, bound),
        done.len() == n,
        forall|c: int| 0 <= c < n && !dead[c] && ready(inn, done, c) ==> #[trigger] done[c],
    ensures
        forall|c: int| 0 <= c < n && !dead[c] && rank[c] < r ==> #[trigger] done[c],
    decreases r,
{
    if r > 0 {
        lemma_all_placed(n, dead, out, inn, rank, bound, done, r - 1);
        assert forall|c: int| 0 <= c < n && !dead[c] && rank[c] < r implies #[trigger] done[c] by {
            let cu = c as usize;
            assert forall|k: int| 0 <= k < inn[c].len() implies done[#[trigger] inn[c][k] as int] by {
                let x = inn[c][k];
                assert(inn[cu as int].contains(x));
                assert(out[x as int].contains(cu));
                assert(rank[x as int] < rank[c]);
            }
        }
    } else {
        assert forall|c: int| 0 <= c < n && !dead[c] && rank[c] < r implies #[trigger] done[c] by {
            assert(0 <= rank[c]);
        }
    }
}

/// What holds of the clusters that wait for their place: each is live and ready, none has
/// its place yet, and every cluster that was let in and has no place yet waits.
pub open spec fn waiting_inv(
    n: int,
    dead: Seq<bool>,
    inn: Seq<Seq<usize>>,
    done: Seq<bool>,
    queued: Seq<bool>,
    stack: Seq<usize>,
) -> bool {
    &&& done.len() == n && queued.len() == n
    &&& forall|x: int| 0 <= x < n && #[trigger] queued[x] ==> !dead[x] && ready(inn, done, x)
    &&& forall|x: int| 0 <= x < n && #[trigger] done[x] ==> queued[x]
    &&& forall|k: int|
        0 <= k < stack.len() ==> (#[trigger] stack[k]) < n && queued[stack[k] as int]
            && !done[stack[k] as int]
    &&& forall|x: usize|
        x < n && queued[x as int] && !done[x as int] ==> #[trigger] stack.contains(x)
    &&& stack.no_duplicates()
}

/// The clusters that have a place stand in the order at their place, after every cluster
/// from which an edge leads to them.
pub open spec fn placed_inv(
    n: int,
    inn: Seq<Seq<usize>>,
    done: Seq<bool>,
    place: Seq<usize>,
    order: Seq<usize>,
) -> bool {
    &&& done.len() == n && place.len() == n
    &&& forall|k: int|
        0 <= k < order.len() ==> (#[trigger] order[k]) < n && done[order[k] as int]
            && place[order[k] as int] == k
    &&& forall|x: int|
        0 <= x < n && #[trigger] done[x] ==> place[x] < order.len() && order[place[x] as int] == x
    &&& forall|x: int, y: usize|
        0 <= x < n && done[x] && #[trigger] inn[x].contains(y) ==> y < n && done[y as int]
            && place[y as int] < place[x]
}

/// Letting a ready cluster in keeps what holds of the waiting clusters.
proof fn lemma_let_in(
    n: int,
    dead: Seq<bool>,
    inn: Seq<Seq<usize>>,
    done: Seq<bool>,
    queued: Seq<bool>,
    stack: Seq<usize>,
    y: usize,
)
    requires
        waiting_inv(n, dead, inn, done, queued, stack),
        y < n,
        !queued[y as int],
        !dead[y as int],
        ready(inn, done, y as int),
    ensures
        waiting_inv(n, dead, inn, done, queued.update(y as int, true), stack.push(y)),
        unmarked(queued.update(y as int, true), n) + stack.push(y).len() == unmarked(queued, n)
            + stack.len(),
{
    let q2 = queued.update(y as int, true);
    let s2 = stack.push(y);
    lemma_unmarked_set(queued, y as int, n);
    assert(s2[s2.len() - 1] == y);
    assert forall|x: usize| x < n && q2[x as int] && !done[x as int] implies #[trigger] s2.contains(
        x,
    ) by {
        if x != y {
            assert(stack.contains(x));
            let j = choose|j: int| 0 <= j < stack.len() && stack[j] == x;
            assert(s2[j] == x);
        }
    }
    assert forall|k: int| 0 <= k < s2.len() implies (#[trigger] s2[k]) < n && q2[s2[k] as int]
        && !done[s2[k] as int] by {
        if k < stack.len() {
            assert(s2[k] == stack[k]);
        }
    }
    assert forall|a: int, b: int| 0 <= a < s2.len() && 0 <= b < s2.len() && a != b implies s2[a]
        != s2[b] by {
        if a < stack.len() {
            assert(queued[stack[a] as int]);
        }
        if b < stack.len() {
            assert(queued[stack[b] as int]);
        }
    }
    assert forall|x: int| 0 <= x < n && #[trigger] q2[x] implies !dead[x] && ready(inn, done, x) by {
        if x != y {
            assert(queued[x]);
        }
    }
}

/// Giving the cluster on top of the stack its place keeps the order sound.
proof fn lemma_give_place(
    n: int,
    dead: Seq<bool>,
    out: Seq<Seq<usize>>,
    inn: Seq<Seq<usize>>,
    rank: Seq<int>,
    bound: int,
    done: Seq<bool>,
    queued: Seq<bool>,
    stack: Seq<usize>,
    place: Seq<usize>,
    order: Seq<usize>,
)
    requires
        edges_sound(n, dead, out, inn, rank, bound),
        waiting_inv(n, dead, inn, done, queued, stack),
        placed_inv(n, inn, done, place, order),
        stack.len() > 0,
        order.len() <= usize::MAX,
    ensures
        waiting_inv(
            n,
            dead,
            inn,
            done.update(stack.last() as int, true),
            queued,
            stack.drop_last(),
        ),
        placed_inv(
            n,
            inn,
            done.update(stack.last() as int, true),
            place.update(stack.last() as int, order.len() as usize),
            order.push(stack.last()),
        ),
{
    let t = stack.last();
    assert(stack[stack.len() - 1] == t);
    let d2 = done.update(t as int, true);
    let s2 = stack.drop_last();
    let p2 = place.update(t as int, order.len() as usize);
    let o2 = order.push(t);
    assert forall|x: int| 0 <= x < n && #[trigger] queued[x] implies !dead[x] && ready(inn, d2, x) by {
        assert(ready(inn, done, x));
        assert forall|k: int| 0 <= k < inn[x].len() implies d2[#[trigger] inn[x][k] as int] by {
            assert(inn[x].contains(inn[x][k]));
            assert(done[inn[x][k] as int]);
        }
    }
    assert forall|x: usize| x < n && queued[x as int] && !d2[x as int] implies #[trigger] s2.contains(
        x,
    ) by {
        assert(stack.contains(x));
        let j = choose|j: int| 0 <= j < stack.len() && stack[j] == x;
        assert(s2[j] == x);
    }
    assert forall|k: int| 0 <= k < s2.len() implies (#[trigger] s2[k]) < n && queued[s2[k] as int]
        && !d2[s2[k] as int] by {
        assert(s2[k] == stack[k]);
        assert(stack[k] != stack[stack.len() - 1]);
    }
    assert(s2.no_duplicates());
    assert forall|k: int| 0 <= k < o2.len() implies (#[trigger] o2[k]) < n && d2[o2[k] as int]
        && p2[o2[k] as int] == k by {
        if k < order.len() {
            assert(o2[k] == order[k]);
            assert(done[order[k] as int]);
        }
    }
    assert forall|x: int| 0 <= x < n && #[trigger] d2[x] implies p2[x] < o2.len() && o2[p2[x] as int]
        == x by {
        if x != t {
            assert(done[x]);
            assert(o2[place[x] as int] == order[place[x] as int]);
        }
    }
    assert forall|x: int, y: usize| 0 <= x < n && d2[x] && #[trigger] inn[x].contains(y) implies y
        < n && d2[y as int] && p2[y as int] < p2[x] by {
        if x == t {
            assert(queued[t as int]);
            assert(ready(inn, done, t as int));
            let k = choose|k: int| 0 <= k < inn[x].len() && inn[x][k] == y;
            assert(done[inn[x][k] as int]);
            assert(place[y as int] < order.len());
        } else {
            assert(done[x]);
            assert(done[y as int] && place[y as int] < place[x]);
        }
    }
}

/// The live clusters in an order that agrees with the edges: a cluster stands after every
/// cluster from which an edge leads to it. Also returns, for each cluster, its place.
fn order_clusters(
    absorbed: &FixedBitSet,
    outedges: &Vec<Vec<usize>>,
    inedges: &Vec<Vec<usize>>,
    Ghost(rank): Ghost<Seq<int>>,
    Ghost(bound): Ghost<int>,
) -> (r: (Vec<usize>, Vec<usize>))
    requires
        edges_sound(
            outedges@.len() as int,
            bits_of(*absorbed),
            lists_of(outedges@),
            lists_of(inedges@),
            rank,
            bound,
        ),
    ensures
        r.1@.len() == outedges@.len(),
        forall|k: int|
            0 <= k < r.0@.len() ==> (#[trigger] r.0@[k]) < outedges@.len() && !bits_of(
                *absorbed,
            )[r.0@[k] as int] && r.1@[r.0@[k] as int] == k,
        forall|c: int|
            0 <= c < outedges@.len() && !bits_of(*absorbed)[c] ==> (#[trigger] r.1@[c]) < r.0@.len()
                && r.0@[r.1@[c] as int] == c,
        forall|c: int, x: usize|
            0 <= c < outedges@.len() && !bits_of(*absorbed)[c] && #[trigger] lists_of(
                inedges@,
            )[c].contains(x) ==> r.1@[x as int] < r.1@[c],
{
    let n = outedges.len();
    let ghost dead = bits_of(*absorbed);
    let ghost out = lists_of(outedges@);
    let ghost inn = lists_of(inedges@);
    let mut done: Vec<bool> = Vec::new();
    let mut queued: Vec<bool> = Vec::new();
    let mut place: Vec<usize> = Vec::new();
    let mut stack: Vec<usize> = Vec::new();
    let mut order: Vec<usize> = Vec::new();
    let mut c: usize = 0;
    while c < n
        invariant
            c <= n,
            n == outedges@.len(),
            done@.len() == c,
            queued@.len() == c,
            place@.len() == c,
            forall|x: int| 0 <= x < c ==> !(#[trigger] done@[x]),
            forall|x: int| 0 <= x < c ==> !(#[trigger] queued@[x]),
        decreases n - c,
    {
        done.push(false);
        queued.push(false);
        place.push(0);
        c += 1;
    }
    let mut c: usize = 0;
    while c < n
        invariant
            c <= n,
            n == outedges@.len(),
            dead == bits_of(*absorbed),
            inn == lists_of(inedges@),
            inn.len() == n,
            dead.len() == n,
            place@.len() == n,
            order@.len() == 0,
            forall|x: int| 0 <= x < n ==> !(#[trigger] done@[x]),
            waiting_inv(n as int, dead, inn, done@, queued@, stack@),
            forall|x: int| 0 <= x < c && !dead[x] && inn[x].len() == 0 ==> #[trigger] queued@[x],
            forall|x: int| c <= x < n ==> !(#[trigger] queued@[x]),
            forall|x: int| 0 <= x < n && #[trigger] queued@[x] ==> inn[x].len() == 0,
        decreases n - c,
    {
        assert(inn[c as int] == inedges@[c as int]@);
        if !bitset_contains(absorbed, c) && inedges[c].len() == 0 {
            proof {
                lemma_let_in(n as int, dead, inn, done@, queued@, stack@, c);
            }
            queued[c] = true;
            stack.push(c);
        }
        c += 1;
    }
    proof {
        assert(placed_inv(n as int, inn, done@, place@, order@));
        assert forall|x: int| 0 <= x < n && !dead[x] && ready(inn, done@, x) implies #[trigger] queued@[x] by {
            if inn[x].len() > 0 {
                assert(inn[x].contains(inn[x][0]));
                assert(done@[inn[x][0] as int]);
            }
        }
    }
    loop
        invariant
            n == outedges@.len(),
            dead == bits_of(*absorbed),
            out == lists_of(outedges@),
            inn == lists_of(inedges@),
            edges_sound(n as int, dead, out, inn, rank, bound),
            waiting_inv(n as int, dead, inn, done@, queued@, stack@),
            placed_inv(n as int, inn, done@, place@, order@),
            forall|x: int| 0 <= x < n && !dead[x] && ready(inn, done@, x) ==> #[trigger] queued@[x],
        ensures
            stack@.len() == 0,
        decreases unmarked(queued@, n as int) + stack@.len(),
    {
        let ghost s1 = stack@;
        let ghost q1 = queued@;
        let ghost d1 = done@;
        let placed = order.len();
        proof {
            lemma_unmarked_nonneg(q1, n as int);
            if s1.len() > 0 {
                lemma_give_place(n as int, dead, out, inn, rank, bound, d1, q1, s1, place@, order@);
            }
        }
        match stack.pop() {
            None => {
                break ;
            },
            Some(t) => {
                let ghost s2 = stack@;
                assert(s2 =~= s1.drop_last());
                assert(s1[s1.len() - 1] == t);
                place[t] = placed;
                order.push(t);
                done[t] = true;
                let list = &outedges[t];
                assert(list@ == out[t as int]);
                let mut j: usize = 0;
                while j < list.len()
                    invariant
                        j <= list@.len(),
                        t < n,
                        n == outedges@.len(),
                        dead == bits_of(*absorbed),
                        out == lists_of(outedges@),
                        inn == lists_of(inedges@),
                        list@ == out[t as int],
                        edges_sound(n as int, dead, out, inn, rank, bound),
                        waiting_inv(n as int, dead, inn, done@, queued@, stack@),
                        d1.len() == n,
                        done@ == d1.update(t as int, true),
                        forall|x: int|
                            0 <= x < n && !dead[x] && ready(inn, d1, x) ==> #[trigger] queued@[x],
                        forall|k: int|
                            0 <= k < j && ready(inn, done@, (#[trigger] list@[k]) as int)
                                ==> queued@[list@[k] as int],
                        unmarked(queued@, n as int) + stack@.len() == unmarked(q1, n as int) + s2.len(),
                    decreases list.len() - j,
                {
                    let y = list[j];
                    assert(out[t as int].contains(y));
                    assert(y < n && !dead[y as int]);
                    assert(inn[y as int] == inedges@[y as int]@);
                    assert forall|k: int| 0 <= k < inedges@[y as int]@.len() implies #[trigger] inedges@[y as int]@[k]
                        < done@.len() by {
                        assert(inn[y as int].contains(inn[y as int][k]));
                    }
                    let ghost q0 = queued@;
                    if !queued[y] {
                        let full = all_done(&inedges[y], &done);
                        assert(full == ready(inn, done@, y as int));
                        if full {
                            proof {
                                lemma_let_in(n as int, dead, inn, done@, queued@, stack@, y);
                            }
                            queued[y] = true;
                            stack.push(y);
                        }
                    }
                    proof {
                        assert forall|k: int|
                            0 <= k < j + 1 && ready(inn, done@, (#[trigger] list@[k]) as int) implies queued@[list@[k] as int] by {
                            assert(out[t as int].contains(list@[k]));
                            if k < j {
                                assert(q0[list@[k] as int]);
                            }
                        }
                        assert forall|x: int|
                            0 <= x < n && !dead[x] && ready(inn, d1, x) implies #[trigger] queued@[x] by {
                            assert(q0[x]);
                        }
                    }
                    j += 1;
                }
                proof {
                    assert forall|x: int| 0 <= x < n && !dead[x] && ready(inn, done@, x) implies #[trigger] queued@[x] by {
                        if !ready(inn, d1, x) {
                            // something that leads to `x` was missing before `t` had its place
                            let k = choose|k: int| 0 <= k < inn[x].len() && !d1[#[trigger] inn[x][k] as int];
                            assert(inn[x].contains(inn[x][k]));
                            assert(done@[inn[x][k] as int]);
                            assert(inn[x][k] == t);
                            let xu = x as usize;
                            assert(inn[xu as int].contains(t));
                            assert(out[t as int].contains(xu));
                            let q = choose|q: int| 0 <= q < list@.len() && list@[q] == xu;
                            assert(queued@[list@[q] as int]);
                        }
                    }
                    lemma_unmarked_nonneg(queued@, n as int);
                }
            },
        }
    }
    proof {
        assert forall|c: int| 0 <= c < n && !dead[c] && ready(inn, done@, c) implies #[trigger] done@[c] by {
            assert(queued@[c]);
            if !done@[c] {
                assert(stack@.contains(c as usize));
            }
        }
        lemma_all_placed(n as int, dead, out, inn, rank, bound, done@, bound);
        assert forall|c: int| 0 <= c < n && !dead[c] implies (#[trigger] place@[c]) < order@.len()
            && order@[place@[c] as int] == c by {
            assert(done@[c]);
        }
        assert forall|c: int, x: usize|
            0 <= c < n && !dead[c] && #[trigger] inn[c].contains(x) implies place@[x as int]
            < place@[c] by {
            assert(done@[c]);
        }
        assert forall|k: int| 0 <= k < order@.len() implies (#[trigger] order@[k]) < n
            && !dead[order@[k] as int] && place@[order@[k] as int] == k by {
            assert(done@[order@[k] as int]);
            assert(queued@[order@[k] as int]);
        }
    }
    (order, place)
}


/// The labels among the first `i` that cluster `c` holds, in their order.
pub open spec fn member_ids(reps: Seq<usize>, c: usize, i: int) -> Seq<int>
    decreases i,
{
    if i <= 0 {
        Seq::empty()
    } else if reps[i - 1] == c {
        member_ids(reps, c, i - 1).push(i - 1)
    } else {
        member_ids(reps, c, i - 1)
    }
}

/// The columns of the given labels.
pub open spec fn columns_of(pos: Seq<Pos>, ids: Seq<int>) -> Seq<Pos> {
    Seq::new(ids.len(), |a: int| pos[ids[a]])
}

pub proof fn lemma_member_ids(reps: Seq<usize>, c: usize, i: int)
    requires
        0 <= i <= reps.len(),
    ensures
        forall|a: int|
            0 <= a < member_ids(reps, c, i).len() ==> 0 <= (#[trigger] member_ids(reps, c, i)[a]) < i
                && reps[member_ids(reps, c, i)[a]] == c,
        forall|a: int, b: int|
            0 <= a < b < member_ids(reps, c, i).len() ==> member_ids(reps, c, i)[a] < member_ids(
                reps,
                c,
                i,
            )[b],
        forall|x: int| 0 <= x < i && reps[x] == c ==> member_ids(reps, c, i).contains(x),
    decreases i,
{
    if i > 0 {
        lemma_member_ids(reps, c, i - 1);
        let m0 = member_ids(reps, c, i - 1);
        let m1 = member_ids(reps, c, i);
        assert forall|x: int| 0 <= x < i && reps[x] == c implies m1.contains(x) by {
            if x < i - 1 {
                assert(m0.contains(x));
                let a = choose|a: int| 0 <= a < m0.len() && m0[a] == x;
                assert(m1[a] == x);
            } else {
                assert(m1[m1.len() - 1] == x);
            }
        }
    }
}

/// Columns of one constraint stand in clusters that the order has in the order of the
/// columns.
proof fn lemma_chain(
    n: int,
    pos: Seq<Pos>,
    reps: Seq<usize>,
    dead: Seq<bool>,
    out: Seq<Seq<usize>>,
    inn: Seq<Seq<usize>>,
    rows: Seq<Set<u32>>,
    rank: Seq<int>,
    bound: int,
    place: Seq<usize>,
    j: int,
    i: int,
)
    requires
        n <= usize::MAX,
        order_inv(n, pos, reps, dead, out, inn, rows, rank, bound),
        place.len() == n,
        forall|c: int, x: usize|
            0 <= c < n && !dead[c] && #[trigger] inn[c].contains(x) ==> place[x as int] < place[c],
        0 <= j < i < n,
        pos[j].0 == pos[i].0,
    ensures
        place[reps[j] as int] < place[reps[i] as int],
    decreases i - j,
{
    assert(lex_lt(pos[i - 1], pos[i]));
    if j < i - 1 {
        assert(lex_lt(pos[j], pos[i - 1]));
    }
    assert(pos[i - 1].0 == pos[i].0);
    let a = reps[i - 1];
    let b = reps[i];
    assert(a < n && b < n);
    assert(out[a as int].contains(b));
    assert(inn[b as int].contains(a));
    assert(!dead[b as int]);
    if j < i - 1 {
        lemma_chain(n, pos, reps, dead, out, inn, rows, rank, bound, place, j, i - 1);
    }
}

/// The clusters of the tracer, taken in an order that agrees with the edges, are a trace
/// that holds every label once.
proof fn lemma_trace_of_order(
    n: int,
    pos: Seq<Pos>,
    reps: Seq<usize>,
    dead: Seq<bool>,
    out: Seq<Seq<usize>>,
    inn: Seq<Seq<usize>>,
    rows: Seq<Set<u32>>,
    rank: Seq<int>,
    bound: int,
    counts: Seq<usize>,
    order: Seq<usize>,
    place: Seq<usize>,
    t: Seq<Seq<Pos>>,
)
    requires
        n <= usize::MAX,
        order_inv(n, pos, reps, dead, out, inn, rows, rank, bound),
        forall|i: int|
            0 <= i < n ==> (#[trigger] pos[i]).0 < counts.len() && pos[i].1 < counts[pos[i].0 as int],
        place.len() == n,
        forall|k: int|
            0 <= k < order.len() ==> (#[trigger] order[k]) < n && !dead[order[k] as int]
                && place[order[k] as int] == k,
        forall|c: int|
            0 <= c < n && !dead[c] ==> (#[trigger] place[c]) < order.len() && order[place[c] as int]
                == c,
        forall|c: int, x: usize|
            0 <= c < n && !dead[c] && #[trigger] inn[c].contains(x) ==> place[x as int] < place[c],
        t.len() == order.len(),
        forall|k: int|
            0 <= k < order.len() ==> #[trigger] t[k] == columns_of(
                pos,
                member_ids(reps, order[k], n),
            ),
    ensures
        is_sorted_trace(t, counts),
        forall|i: int| 0 <= i < n ==> t[place[reps[i] as int] as int].contains(#[trigger] pos[i]),
        forall|k: int, a: int|
            0 <= k < t.len() && 0 <= a < t[k].len() ==> pos.contains(#[trigger] t[k][a]),
        forall|k: int| 0 <= k < t.len() ==> (#[trigger] t[k]).len() > 0,
{
    assert forall|k: int| 0 <= k < t.len() implies sorted_by_constraint(#[trigger] t[k])
        && distinct_constraints(t[k]) && cluster_in_range(t[k], counts) && t[k].len() > 0 by {
        let ids = member_ids(reps, order[k], n);
        lemma_member_ids(reps, order[k], n);
        assert forall|a: int, b: int| 0 <= a < b < t[k].len() implies t[k][a].0 < t[k][b].0 by {
            assert(ids[a] < ids[b]);
            assert(lex_lt(pos[ids[a]], pos[ids[b]]));
            assert(reps[ids[a]] == reps[ids[b]]);
        }
        assert forall|a: int| 0 <= a < t[k].len() implies t[k][a].0 < counts.len() && t[k][a].1
            < counts[t[k][a].0 as int] by {
            assert(0 <= ids[a] < n);
        }
        assert(reps[order[k] as int] == order[k]);
        assert(ids.contains(order[k] as int));
    }
    assert forall|x: int, y: int| 0 <= x < y < t.len() implies strictly_before(t[x], t[y]) by {
        let ix = member_ids(reps, order[x], n);
        let iy = member_ids(reps, order[y], n);
        lemma_member_ids(reps, order[x], n);
        lemma_member_ids(reps, order[y], n);
        assert(place[order[x] as int] == x && place[order[y] as int] == y);
        assert forall|a: int, b: int|
            0 <= a < t[x].len() && 0 <= b < t[y].len() && t[x][a].0 == t[y][b].0 implies t[x][a].1
            < t[y][b].1 by {
            let i = ix[a];
            let j = iy[b];
            assert(0 <= i < n && 0 <= j < n);
            assert(reps[i] == order[x] && reps[j] == order[y]);
            if j < i {
                lemma_chain(n, pos, reps, dead, out, inn, rows, rank, bound, place, j, i);
            } else {
                assert(i < j);
                assert(lex_lt(pos[i], pos[j]));
            }
        }
    }
    assert forall|i: int| 0 <= i < n implies t[place[reps[i] as int] as int].contains(
        #[trigger] pos[i],
    ) by {
        let c = reps[i];
        assert(c < n && !dead[c as int]);
        let k = place[c as int] as int;
        assert(order[k] == c);
        lemma_member_ids(reps, c, n);
        let ids = member_ids(reps, c, n);
        assert(ids.contains(i));
        let a = choose|a: int| 0 <= a < ids.len() && ids[a] == i;
        assert(t[k][a] == pos[i]);
    }
    assert forall|k: int, a: int| 0 <= k < t.len() && 0 <= a < t[k].len() implies pos.contains(
        #[trigger] t[k][a],
    ) by {
        lemma_member_ids(reps, order[k], n);
        let ids = member_ids(reps, order[k], n);
        assert(0 <= ids[a] < n);
        assert(pos[ids[a]] == t[k][a]);
    }
}

impl Tracer {
    /// The clusters in an order that agrees with the edges, each with its columns.
    fn finish(
        &self,
        Ghost(counts): Ghost<Seq<usize>>,
        Ghost(labels): Ghost<Seq<usize>>,
        Ghost(edges): Ghost<Seq<Edge>>,
        Ghost(npos): Ghost<Seq<Pos>>,
    ) -> (r: Vec<Vec<(u32, u32)>>)
        requires
            self.inv(),
            self.links(labels, edges, self.pq@),
            self.bonds(labels, edges),
            forall|i: int| 0 <= i < self.n ==> #[trigger] self.pos@[i] == npos[labels[i] as int],
            self.pq@.len() == 0,
            forall|i: int|
                0 <= i < self.n ==> (#[trigger] self.pos@[i]).0 < counts.len() && self.pos@[i].1
                    < counts[self.pos@[i].0 as int],
        ensures
            forall|k: int|
                0 <= k < r@.len() ==> hangs_together(#[trigger] rows_of(r@)[k], npos, edges),
            forall|j: int, a: int, b: int|
                #[trigger] is_end(labels, edges, j, a, b) && a != b ==> settled(
                    rows_of(r@),
                    self.pos@[a],
                    self.pos@[b],
                ),
            forall|j: int, a: int, b: int|
                #[trigger] is_end(labels, edges, j, a, b) && a != b && reps_of(self.clusters)[a]
                    == reps_of(self.clusters)[b] ==> together(
                    rows_of(r@),
                    self.pos@[a],
                    self.pos@[b],
                ),
            is_sorted_trace(rows_of(r@), counts),
            forall|i: int| 0 <= i < self.n ==> hosts(rows_of(r@), #[trigger] self.pos@[i]),
            forall|k: int, a: int|
                0 <= k < r@.len() && 0 <= a < rows_of(r@)[k].len() ==> self.pos@.contains(
                    #[trigger] rows_of(r@)[k][a],
                ),
            forall|k: int| 0 <= k < r@.len() ==> (#[trigger] rows_of(r@)[k]).len() > 0,
    {
        let n = self.n;
        let ghost reps = reps_of(self.clusters);
        let ghost pos = self.pos@;
        let (order, place) = order_clusters(
            &self.absorbed,
            &self.order_outedges,
            &self.order_inedges,
            Ghost(self.rank@),
            Ghost(self.bound@),
        );
        let mut buckets: Vec<Vec<(u32, u32)>> = Vec::new();
        let mut c: usize = 0;
        while c < n
            invariant
                c <= n,
                buckets@.len() == c,
                forall|x: int| 0 <= x < c ==> (#[trigger] buckets@[x])@.len() == 0,
            decreases n - c,
        {
            buckets.push(Vec::new());
            c += 1;
        }
        let mut i: usize = 0;
        while i < n
            invariant
                i <= n,
                n == self.n,
                self.inv(),
                reps == reps_of(self.clusters),
                pos == self.pos@,
                buckets@.len() == n,
                forall|x: usize|
                    x < n ==> (#[trigger] buckets@[x as int])@ == columns_of(
                        pos,
                        member_ids(reps, x, i as int),
                    ),
            decreases n - i,
        {
            let cid = dsu_find(&self.clusters, i);
            assert(cid == reps[i as int]);
            assert(cid < n);
            let ghost b0 = buckets@;
            buckets[cid].push(self.pos[i]);
            proof {
                assert forall|x: usize| x < n implies (#[trigger] buckets@[x as int])@ == columns_of(
                    pos,
                    member_ids(reps, x, i as int + 1),
                ) by {
                    let m0 = member_ids(reps, x, i as int);
                    let m1 = member_ids(reps, x, i as int + 1);
                    assert(b0[x as int]@ == columns_of(pos, m0));
                    if x == cid {
                        assert(m1 == m0.push(i as int));
                        assert(buckets@[x as int]@ =~= columns_of(pos, m1));
                    } else {
                        assert(buckets@[x as int] == b0[x as int]);
                    }
                }
            }
            i += 1;
        }
        let mut out: Vec<Vec<(u32, u32)>> = Vec::new();
        let mut k: usize = 0;
        while k < order.len()
            invariant
                k <= order@.len(),
                buckets@.len() == n,
                forall|j: int| 0 <= j < order@.len() ==> (#[trigger] order@[j]) < n,
                out@.len() == k,
                forall|j: int| 0 <= j < k ==> (#[trigger] out@[j])@ == buckets@[order@[j] as int]@,
            decreases order.len() - k,
        {
            let mut cluster: Vec<(u32, u32)> = Vec::new();
            crate::progressive::extend_copy(&mut cluster, &buckets[order[k]]);
            assert(cluster@ =~= buckets@[order@[k as int] as int]@);
            out.push(cluster);
            k += 1;
        }
        proof {
            let t = rows_of(out@);
            assert forall|j: int| 0 <= j < order@.len() implies #[trigger] t[j] == columns_of(
                pos,
                member_ids(reps, order@[j], n as int),
            ) by {
                assert(out@[j]@ == buckets@[order@[j] as int]@);
            }
            lemma_trace_of_order(
                n as int,
                pos,
                reps,
                bits_of(self.absorbed),
                lists_of(self.order_outedges@),
                lists_of(self.order_inedges@),
                sets_of(self.rows@),
                self.rank@,
                self.bound@,
                counts,
                order@,
                place@,
                t,
            );
            assert forall|i: int| 0 <= i < n implies hosts(rows_of(out@), #[trigger] pos[i]) by {
                let k = place@[reps[i] as int] as int;
                assert(reps[i] < n);
                assert(t[k].contains(pos[i]));
            }
            let dead = bits_of(self.absorbed);
            let o = lists_of(self.order_outedges@);
            let rows = sets_of(self.rows@);
            assert(placed(pos, reps, place@, t)) by {
                assert forall|i: int| 0 <= i < pos.len() implies (#[trigger] reps[i]) < place@.len()
                    && place@[reps[i] as int] < t.len() && t[place@[reps[i] as int] as int].contains(
                    pos[i],
                ) by {
                    assert(!dead[reps[i] as int]);
                }
            }
            vstd::multiset::lemma_multiset_empty_len(self.pq@);
            assert forall|j: int, a: int, b: int|
                #[trigger] is_end(labels, edges, j, a, b) && a != b implies settled(
                t,
                pos[a],
                pos[b],
            ) by {
                assert(tied(o, rows, maps_of(self.weightmap@), self.pq@, reps[a], reps[b]));
                lemma_settled(pos, reps, dead, o, rows, counts, place@, t, a, b);
            }
            assert forall|k: int| 0 <= k < t.len() implies hangs_together(
                #[trigger] t[k],
                npos,
                edges,
            ) by {
                let c = t[k];
                let x = order@[k];
                let ids = member_ids(reps, x, n as int);
                lemma_member_ids(reps, x, n as int);
                assert(c == columns_of(pos, ids));
                assert(place@[x as int] == k);
                assert forall|i: int| 0 <= i < reps.len() && reps[i] == x implies c.contains(
                    #[trigger] pos[i],
                ) by {
                    assert(t[place@[reps[i] as int] as int].contains(pos[i]));
                }
                assert forall|p: Pos, q: Pos| c.contains(p) && c.contains(q) implies #[trigger] path_joins(
                    c,
                    npos,
                    edges,
                    p,
                    q,
                ) by {
                    let ia = choose|ia: int| 0 <= ia < c.len() && c[ia] == p;
                    let ib = choose|ib: int| 0 <= ib < c.len() && c[ib] == q;
                    let a = ids[ia];
                    let b = ids[ib];
                    assert(reps[a] == x && reps[b] == x);
                    assert(joined_in(reps, labels, edges, a, b));
                    let path = choose|path: Seq<int>|
                        #[trigger] is_linkpath(reps, labels, edges, path) && path[0] == a
                            && path[path.len() - 1] == b;
                    lemma_column_path(c, x, npos, labels, edges, pos, reps, path);
                    let cols = Seq::new(path.len(), |i: int| pos[path[i]]);
                    assert(cols[0] == p && cols[cols.len() - 1] == q);
                }
            }
            assert forall|j: int, a: int, b: int|
                #[trigger] is_end(labels, edges, j, a, b) && a != b && reps[a]
                    == reps[b] implies together(t, pos[a], pos[b]) by {
                let k = place@[reps[a] as int] as int;
                lemma_holder_in_trace(t, counts, pos[a], k);
                lemma_holder_in_trace(t, counts, pos[b], k);
                if a < b {
                    assert(lex_lt(pos[a], pos[b]));
                } else {
                    assert(lex_lt(pos[b], pos[a]));
                }
            }
        }
        out
    }
}

/// The trace that greedy merging by mean linkage builds: every column that has an edge
/// stands in one cluster, no cluster holds two columns of one constraint, and the clusters
/// come in an order that agrees with every constraint. Clusters grow along edges only:
/// each hangs together by edges of the graph. The heaviest linkage is merged first: the two
/// columns of an edge between two constraints that is heavier than every other edge stand
/// in one cluster. Merging goes on until nothing is left to merge: the two columns of every
/// edge stand in one cluster, or in two clusters of which one is bound to come before the
/// other.
pub fn naive_upgma(graph: &Graph, state: &AlnState) -> (r: ClusteringResult)
    requires
        graph.wf(state.column_counts@),
    ensures
        is_sorted_trace(r@, state.column_counts@),
        r.mwt_am == 0,
        forall|i: int|
            0 <= i < graph.labels@.len() ==> hosts(
                r@,
                graph.node_pos@[(#[trigger] graph.labels@[i]) as int],
            ),
        forall|k: int, a: int|
            0 <= k < r@.len() && 0 <= a < r@[k].len() ==> graph.is_label(#[trigger] r@[k][a]),
        forall|k: int| 0 <= k < r@.len() ==> (#[trigger] r@[k]).len() > 0,
        forall|j: int|
            0 <= j < graph.sims.edges@.len() ==> settled(
                r@,
                graph.node_pos@[(#[trigger] graph.sims.edges@[j]).u as int],
                graph.node_pos@[graph.sims.edges@[j].v as int],
            ),
        forall|k: int|
            0 <= k < r@.len() ==> hangs_together(
                #[trigger] r@[k],
                graph.node_pos@,
                graph.sims.edges@,
            ),
        forall|j: int|
            heaviest_cross(graph.node_pos@, graph.sims.edges@, j) ==> together(
                r@,
                graph.node_pos@[(#[trigger] graph.sims.edges@[j]).u as int],
                graph.node_pos@[graph.sims.edges@[j].v as int],
            ),
{
    let ghost counts = state.column_counts@;
    let ghost labels = graph.labels@;
    let ghost edges = graph.sims.edges@;
    let mut t = Tracer::new(graph, Ghost(counts));
    let ghost pos = t.pos@;
    let ghost npos = graph.node_pos@;
    let ghost mut started = false;
    let n = t.n;
    loop
        invariant
            t.inv(),
            t.links(labels, edges, t.pq@),
            t.bonds(labels, edges),
            t.n == n,
            t.pos@ == pos,
            graph.wf(counts),
            npos == graph.node_pos@,
            labels == graph.labels@,
            edges == graph.sims.edges@,
            n == labels.len(),
            forall|i: int| 0 <= i < n ==> #[trigger] pos[i] == npos[labels[i] as int],
            !started ==> fresh_start(
                n as int,
                labels,
                edges,
                reps_of(t.clusters),
                bits_of(t.absorbed),
                pairs_of(t.invalidated),
                t.pq@,
            ),
            started ==> top_joined(npos, labels, edges, reps_of(t.clusters)),
        ensures
            t.inv(),
            t.links(labels, edges, t.pq@),
            t.bonds(labels, edges),
            forall|i: int| 0 <= i < n ==> #[trigger] pos[i] == npos[labels[i] as int],
            t.n == n,
            t.pos@ == pos,
            t.pq@.len() == 0,
            top_joined(npos, labels, edges, reps_of(t.clusters)),
        decreases unmarked(bits_of(t.absorbed), n as int), t.pq@.len(),
    {
        let ghost dead0 = bits_of(t.absorbed);
        let ghost pq0 = t.pq@;
        let ghost reps = reps_of(t.clusters);
        let ghost out = lists_of(t.order_outedges@);
        let ghost rows = sets_of(t.rows@);
        let ghost maps0 = maps_of(t.weightmap@);
        let ghost pairs0 = pairs_of(t.invalidated);
        proof {
            lemma_unmarked_nonneg(dead0, n as int);
        }
        match t.pq.pop() {
            None => {
                proof {
                    if !started {
                        vstd::multiset::lemma_multiset_empty_len(pq0);
                        assert forall|j: int, a: int, b: int|
                            #[trigger] is_end(labels, edges, j, a, b) && heaviest_cross(
                                npos,
                                edges,
                                j,
                            ) implies reps[a] == reps[b] by {
                            lemma_first_linked(
                                npos,
                                labels,
                                edges,
                                pos,
                                reps,
                                dead0,
                                out,
                                rows,
                                maps0,
                                pq0,
                                pairs0,
                                j,
                                a,
                                b,
                            );
                        }
                    }
                }
                break ;
            },
            Some((v, l_, r_)) => {
                let (l, r) = reorder(l_, r_);
                let ghost pq1 = t.pq@;
                proof {
                    broadcast use vstd::multiset::group_multiset_axioms;

                    assert forall|c: Candidate| pq0.contains(c) && c != (v, l_, r_) implies #[trigger]
                        pq1.contains(c) by {}
                }
                if l == r || bitset_contains(&t.absorbed, l) || bitset_contains(&t.absorbed, r) {
                    proof {
                        assert forall|x: usize, y: usize|
                            x != y && !dead0[x as int] && !dead0[y as int] && #[trigger] linked(
                                maps0,
                                pq0,
                                x,
                                y,
                            ) implies linked(maps0, pq1, x, y) || blocked(out, rows, x, y) by {
                            let c = (maps0[x as int][y as u64], lo(x, y), hi(x, y));
                            assert(pq0.contains(c));
                            assert(pq1.contains(c));
                        }
                        lemma_ties_kept(labels, edges, reps, dead0, out, rows, maps0, pq0, maps0, pq1);
                        if !started {
                            assert forall|j: int, a: int, b: int|
                                #[trigger] is_end(labels, edges, j, a, b) && heaviest_cross(
                                    npos,
                                    edges,
                                    j,
                                ) implies reps[a] == reps[b] by {
                                lemma_first_linked(
                                    npos,
                                    labels,
                                    edges,
                                    pos,
                                    reps,
                                    dead0,
                                    out,
                                    rows,
                                    maps0,
                                    pq0,
                                    pairs0,
                                    j,
                                    a,
                                    b,
                                );
                                lemma_first_top(graph.sims, npos, labels, maps0, pq0, j, a, b, (v, l_, r_));
                            }
                        }
                        started = true;
                    }
                    continue ;
                }
                if pairs_contains(&t.invalidated, l, r) {
                    proof {
                        assert(blocked(out, rows, l, r));
                        lemma_blocked_sym(out, rows, l, r);
                        assert forall|x: usize, y: usize|
                            x != y && !dead0[x as int] && !dead0[y as int] && #[trigger] linked(
                                maps0,
                                pq0,
                                x,
                                y,
                            ) implies linked(maps0, pq1, x, y) || blocked(out, rows, x, y) by {
                            let c = (maps0[x as int][y as u64], lo(x, y), hi(x, y));
                            assert(pq0.contains(c));
                            if c != (v, l_, r_) {
                                assert(pq1.contains(c));
                            }
                        }
                        lemma_ties_kept(labels, edges, reps, dead0, out, rows, maps0, pq0, maps0, pq1);
                        if !started {
                            assert forall|j: int, a: int, b: int|
                                #[trigger] is_end(labels, edges, j, a, b) && heaviest_cross(
                                    npos,
                                    edges,
                                    j,
                                ) implies reps[a] == reps[b] by {
                                lemma_first_linked(
                                    npos,
                                    labels,
                                    edges,
                                    pos,
                                    reps,
                                    dead0,
                                    out,
                                    rows,
                                    maps0,
                                    pq0,
                                    pairs0,
                                    j,
                                    a,
                                    b,
                                );
                                lemma_first_top(graph.sims, npos, labels, maps0, pq0, j, a, b, (v, l_, r_));
                            }
                        }
                        started = true;
                    }
                    continue ;
                }
                let fresh = match entries_get(&t.weightmap[l], r as u64) {
                    Some(cur) => cur == v,
                    None => false,
                };
                if !fresh {
                    proof {
                        assert(maps0[l as int] == entries_of(t.weightmap@[l as int]));
                        assert forall|x: usize, y: usize|
                            x != y && !dead0[x as int] && !dead0[y as int] && #[trigger] linked(
                                maps0,
                                pq0,
                                x,
                                y,
                            ) implies linked(maps0, pq1, x, y) || blocked(out, rows, x, y) by {
                            let c = (maps0[x as int][y as u64], lo(x, y), hi(x, y));
                            assert(pq0.contains(c));
                            if c != (v, l_, r_) {
                                assert(pq1.contains(c));
                            }
                        }
                        lemma_ties_kept(labels, edges, reps, dead0, out, rows, maps0, pq0, maps0, pq1);
                        if !started {
                            assert forall|j: int, a: int, b: int|
                                #[trigger] is_end(labels, edges, j, a, b) && heaviest_cross(
                                    npos,
                                    edges,
                                    j,
                                ) implies reps[a] == reps[b] by {
                                lemma_first_linked(
                                    npos,
                                    labels,
                                    edges,
                                    pos,
                                    reps,
                                    dead0,
                                    out,
                                    rows,
                                    maps0,
                                    pq0,
                                    pairs0,
                                    j,
                                    a,
                                    b,
                                );
                                lemma_first_top(graph.sims, npos, labels, maps0, pq0, j, a, b, (v, l_, r_));
                                assert(maps0[l as int] == entries_of(t.weightmap@[l as int]));
                            }
                        }
                        started = true;
                    }
                    continue ;
                }
                assert forall|x: int, k: int|
                    0 <= x < n && 0 <= k < out[x].len() implies #[trigger] out[x][k] < n by {
                    assert(out[x].contains(out[x][k]));
                }
                if !rows_disjoint(&t.rows[l], &t.rows[r]) || !disjoint_set_po_exists(
                    &mut t.visited,
                    &t.order_outedges,
                    l,
                    r,
                    &t.mid_visited,
                ) {
                    proof {
                        assert(rows[l as int] == members_of(t.rows@[l as int]));
                        assert(rows[r as int] == members_of(t.rows@[r as int]));
                        lemma_no_cycle(out, t.rank@, l);
                        lemma_no_cycle(out, t.rank@, r);
                        assert(blocked(out, rows, l, r));
                        lemma_blocked_sym(out, rows, l, r);
                    }
                    entries_remove(&mut t.weightmap[l], r as u64);
                    let ghost maps1 = maps_of(t.weightmap@);
                    entries_remove(&mut t.weightmap[r], l as u64);
                    pairs_insert(&mut t.invalidated, l, r);
                    proof {
                        let maps2 = maps_of(t.weightmap@);
                        assert(maps1[l as int] == maps0[l as int].remove(r as u64));
                        assert(maps2[r as int] == maps1[r as int].remove(l as u64));
                        assert forall|x: int| 0 <= x < n && x != l implies maps1[x] == maps0[x] by {}
                        assert forall|x: int| 0 <= x < n && x != r implies maps2[x] == maps1[x] by {}
                        assert forall|x: int, key: u64|
                            0 <= x < n && #[trigger] maps2[x].contains_key(key) implies key < n
                            && maps2[x][key] <= WEIGHT_CAP by {
                            assert(maps0[x].contains_key(key));
                        }
                        assert forall|x: usize, y: usize|
                            x != y && !dead0[x as int] && !dead0[y as int] && #[trigger] linked(
                                maps0,
                                pq0,
                                x,
                                y,
                            ) implies linked(maps2, pq1, x, y) || blocked(out, rows, x, y) by {
                            let c = (maps0[x as int][y as u64], lo(x, y), hi(x, y));
                            assert(pq0.contains(c));
                            if (x == l && y == r) || (x == r && y == l) {
                            } else {
                                assert(c != (v, l_, r_));
                                assert(pq1.contains(c));
                                assert(x < n && y < n);
                                assert(maps2[x as int].contains_key(y as u64));
                                assert(maps2[y as int].contains_key(x as u64));
                            }
                        }
                        lemma_ties_kept(labels, edges, reps, dead0, out, rows, maps0, pq0, maps2, pq1);
                        assert forall|x: int, y: u64|
                            0 <= x < n && y < n && x != y && !dead0[x] && !dead0[y as int]
                                && #[trigger] maps2[x].contains_key(y) implies exists|a: int, b: int| #[trigger]
                            bond_of(reps, labels, edges, x, y as int, a, b) by {
                            assert(maps0[x].contains_key(y));
                        }
                        if !started {
                            assert forall|j: int, a: int, b: int|
                                #[trigger] is_end(labels, edges, j, a, b) && heaviest_cross(
                                    npos,
                                    edges,
                                    j,
                                ) implies reps[a] == reps[b] by {
                                lemma_first_linked(
                                    npos,
                                    labels,
                                    edges,
                                    pos,
                                    reps,
                                    dead0,
                                    out,
                                    rows,
                                    maps0,
                                    pq0,
                                    pairs0,
                                    j,
                                    a,
                                    b,
                                );
                                lemma_first_top(graph.sims, npos, labels, maps0, pq0, j, a, b, (v, l_, r_));
                                if a == l as int {
                                    assert(blocked(out, rows, a as usize, b as usize));
                                } else {
                                    assert(blocked(out, rows, b as usize, a as usize));
                                    lemma_blocked_sym(out, rows, b as usize, a as usize);
                                }
                            }
                        }
                        started = true;
                        assert forall|a: usize, b: usize|
                            #[trigger] pairs_of(t.invalidated).contains((a, b)) && a < n && b < n && a
                                != b && !dead0[a as int] && !dead0[b as int] implies blocked(
                            out,
                            rows,
                            a,
                            b,
                        ) by {
                            if !pairs0.contains((a, b)) {
                                assert(a == l && b == r);
                            }
                        }
                    }
                    continue ;
                }
                assert(maps0[l as int] == entries_of(t.weightmap@[l as int]));
                t.merge(l, r, Ghost(labels), Ghost(edges), Ghost(pq0));
                proof {
                    lemma_unmarked_nonneg(bits_of(t.absorbed), n as int);
                    let reps2 = reps_of(t.clusters);
                    assert forall|j: int, a: int, b: int|
                        #[trigger] is_end(labels, edges, j, a, b) && heaviest_cross(
                            npos,
                            edges,
                            j,
                        ) implies reps2[a] == reps2[b] by {
                        if started {
                            assert(reps[a] == reps[b]);
                        } else {
                            lemma_first_linked(
                                npos,
                                labels,
                                edges,
                                pos,
                                reps,
                                dead0,
                                out,
                                rows,
                                maps0,
                                pq0,
                                pairs0,
                                j,
                                a,
                                b,
                            );
                            lemma_first_top(graph.sims, npos, labels, maps0, pq0, j, a, b, (v, l_, r_));
                        }
                    }
                    started = true;
                }
            },
        }
    }
    let clusters = t.finish(Ghost(counts), Ghost(labels), Ghost(edges), Ghost(npos));
    proof {
        assert forall|k: int, a: int| 0 <= k < clusters@.len() && 0 <= a < rows_of(
            clusters@,
        )[k].len() implies graph.is_label(#[trigger] rows_of(clusters@)[k][a]) by {
            let p = rows_of(clusters@)[k][a];
            assert(pos.contains(p));
            let i = choose|i: int| 0 <= i < pos.len() && pos[i] == p;
            assert(graph.node_pos@[graph.labels@[i] as int] == p);
        }
        assert forall|i: int| 0 <= i < graph.labels@.len() implies hosts(
            rows_of(clusters@),
            graph.node_pos@[(#[trigger] graph.labels@[i]) as int],
        ) by {
            assert(pos[i] == graph.node_pos@[graph.labels@[i] as int]);
        }
        assert forall|j: int| heaviest_cross(npos, edges, j) implies together(
            rows_of(clusters@),
            graph.node_pos@[(#[trigger] edges[j]).u as int],
            graph.node_pos@[edges[j].v as int],
        ) by {
            let e = edges[j];
            graph.sims.lemma_weight_at(j);
            assert(is_endpoint(edges, e.u));
            assert(is_endpoint(edges, e.v));
            assert(labels.contains(e.u));
            assert(labels.contains(e.v));
            let a = choose|a: int| 0 <= a < labels.len() && labels[a] == e.u;
            let b = choose|b: int| 0 <= b < labels.len() && labels[b] == e.v;
            assert(is_end(labels, edges, j, a, b));
            assert(pos[a] == graph.node_pos@[labels[a] as int]);
            assert(pos[b] == graph.node_pos@[labels[b] as int]);
        }
        assert forall|j: int| 0 <= j < edges.len() implies settled(
            rows_of(clusters@),
            graph.node_pos@[(#[trigger] edges[j]).u as int],
            graph.node_pos@[edges[j].v as int],
        ) by {
            let e = edges[j];
            graph.sims.lemma_weight_at(j);
            assert(is_endpoint(edges, e.u));
            assert(is_endpoint(edges, e.v));
            assert(labels.contains(e.u));
            assert(labels.contains(e.v));
            let a = choose|a: int| 0 <= a < labels.len() && labels[a] == e.u;
            let b = choose|b: int| 0 <= b < labels.len() && labels[b] == e.v;
            assert(is_end(labels, edges, j, a, b));
            assert(pos[a] == graph.node_pos@[labels[a] as int]);
            assert(pos[b] == graph.node_pos@[labels[b] as int]);
        }
    }
    ClusteringResult::new(clusters)
}


/// Whether triplet `i` can be an edge after those before it: it joins a node with a larger
/// one, has a weight, and its pair of nodes is new.
pub open spec fn triplet_ok(triplets: Seq<(usize, usize, u64)>, i: int) -> bool {
    &&& triplets[i].0 < triplets[i].1 <= NODE_CAP
    &&& triplets[i].2 > 0
    &&& forall|j: int|
        0 <= j < i ==> !((#[trigger] triplets[j]).0 == triplets[i].0 && triplets[j].1
            == triplets[i].1)
}

/// The first `n` triplets as edges.
pub open spec fn edges_of(triplets: Seq<(usize, usize, u64)>, n: int) -> Seq<Edge> {
    Seq::new(n as nat, |i: int| Edge { u: triplets[i].0, v: triplets[i].1, w: triplets[i].2 })
}

/// Triplet `i` is the first that cannot join the edges: it cannot be an edge after those
/// before it, which gives `MalformedGraph`, or its weight brings the sum of the weights
/// above `WEIGHT_CAP`, which gives `WeightOverflow`.
pub open spec fn triplet_fault(triplets: Seq<(usize, usize, u64)>, i: int, e: GcmError) -> bool {
    &&& 0 <= i < triplets.len()
    &&& forall|j: int| 0 <= j < i ==> #[trigger] triplet_ok(triplets, j)
    &&& weight_sum(edges_of(triplets, i), i) <= WEIGHT_CAP
    &&& if triplet_ok(triplets, i) {
        e == GcmError::WeightOverflow && weight_sum(edges_of(triplets, i), i) + triplets[i].2
            > WEIGHT_CAP
    } else {
        e == GcmError::MalformedGraph
    }
}

/// The store that holds the triplets as edges, in their order. Fails with `MalformedGraph`
/// at the first triplet that cannot be an edge, and with `WeightOverflow` where the weights
/// add up past `WEIGHT_CAP`.
pub fn triplets_to_sims(triplets: &Vec<(usize, usize, u64)>) -> (r: Result<Sims, GcmError>)
    ensures
        match r {
            Ok(g) => g.wf() && g.edges@ == edges_of(triplets@, triplets@.len() as int) && forall|
                i: int,
            | 0 <= i < triplets@.len() ==> #[trigger] triplet_ok(triplets@, i),
            Err(e) => exists|i: int| #[trigger] triplet_fault(triplets@, i, e),
        },
{
    let mut g = Sims::new();
    let mut i: usize = 0;
    assert(g.edges@ =~= edges_of(triplets@, 0));
    while i < triplets.len()
        invariant
            i <= triplets@.len(),
            g.wf(),
            g.edges@ == edges_of(triplets@, i as int),
            forall|j: int| 0 <= j < i ==> #[trigger] triplet_ok(triplets@, j),
        decreases triplets.len() - i,
    {
        let (u, v, w) = triplets[i];
        let ghost before = g;
        proof {
            crate::sims::lemma_weight_sum_same(
                g.edges@,
                edges_of(triplets@, i as int),
                i as int,
            );
        }
        assert(weight_sum(edges_of(triplets@, i as int), i as int) <= WEIGHT_CAP);
        if !(u < v && v <= NODE_CAP && w > 0) {
            assert(!triplet_ok(triplets@, i as int));
            assert(triplet_fault(triplets@, i as int, GcmError::MalformedGraph));
            return Err(GcmError::MalformedGraph);
        }
        if g.get(u, v) > 0 {
            proof {
                assert(g.has_edge(u, v));
                let j = choose|j: int|
                    0 <= j < g.edges@.len() && (#[trigger] g.edges@[j]).u == u && g.edges@[j].v == v;
                assert(triplets@[j].0 == u && triplets@[j].1 == v);
                assert(!triplet_ok(triplets@, i as int));
                assert(triplet_fault(triplets@, i as int, GcmError::MalformedGraph));
            }
            return Err(GcmError::MalformedGraph);
        }
        proof {
            assert(!g.has_edge(u, v)) by {
                if g.has_edge(u, v) {
                    let j = choose|j: int|
                        0 <= j < g.edges@.len() && (#[trigger] g.edges@[j]).u == u && g.edges@[j].v
                            == v;
                    g.lemma_weight_at(j);
                }
            }
            assert forall|j: int| 0 <= j < i implies !((#[trigger] triplets@[j]).0 == u
                && triplets@[j].1 == v) by {
                if triplets@[j].0 == u && triplets@[j].1 == v {
                    assert(g.edges@[j].u == u && g.edges@[j].v == v);
                }
            }
            assert(triplet_ok(triplets@, i as int));
        }
        match g.add(u, v, w) {
            Ok(()) => {},
            Err(e) => {
                assert(triplet_fault(triplets@, i as int, e));
                return Err(e);
            },
        }
        proof {
            assert(g.edges@ =~= edges_of(triplets@, i as int + 1));
        }
        i += 1;
    }
    Ok(g)
}

} // verus!
