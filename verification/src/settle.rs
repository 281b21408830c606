use vstd::prelude::*;
use vstd::multiset::Multiset;
use crate::cluster::{distinct_constraints, holder, is_trace, strictly_before, together, Pos};
use crate::dsu::joined;
use crate::naive_upgma::{edge_at, edges_moved, is_walk, lex_lt, reach};
use crate::roundtrip::lemma_holder_is;
use crate::queue::Candidate;
use crate::sims::Edge;

verus! {

/// The smaller of two clusters.
pub open spec fn lo(x: usize, y: usize) -> usize {
    if x < y {
        x
    } else {
        y
    }
}

/// The larger of two clusters.
pub open spec fn hi(x: usize, y: usize) -> usize {
    if x < y {
        y
    } else {
        x
    }
}

/// The cluster that stands for `x` once `m` has gone into `w`.
pub open spec fn renamed_to(x: usize, w: usize, m: usize) -> usize {
    if x == m {
        w
    } else {
        x
    }
}

/// Labels `i` and `i + 1` are successive columns of one constraint, the first in cluster
/// `x` and the second in cluster `y`.
pub open spec fn ground_at(pos: Seq<Pos>, reps: Seq<usize>, i: int, x: usize, y: usize) -> bool {
    0 <= i && i + 1 < pos.len() && pos[i].0 == pos[i + 1].0 && reps[i] == x && reps[i + 1] == y
}

/// Every edge of the order comes from two successive columns of a constraint.
pub open spec fn grounded(pos: Seq<Pos>, reps: Seq<usize>, out: Seq<Seq<usize>>) -> bool {
    forall|x: int, y: usize|
        0 <= x < out.len() && #[trigger] out[x].contains(y) ==> exists|i: int| #[trigger] ground_at(pos, reps, i, x as usize, y)
}

/// Label `i` is a column of constraint `k` in cluster `x`.
pub open spec fn row_at(pos: Seq<Pos>, reps: Seq<usize>, i: int, x: usize, k: u32) -> bool {
    0 <= i < pos.len() && reps[i] == x && pos[i].0 == k
}

/// Every constraint that a live cluster is said to hold is that of one of its columns.
pub open spec fn rows_grounded(
    pos: Seq<Pos>,
    reps: Seq<usize>,
    dead: Seq<bool>,
    rows: Seq<Set<u32>>,
) -> bool {
    forall|x: int, k: u32|
        0 <= x < rows.len() && !dead[x] && #[trigger] rows[x].contains(k) ==> exists|i: int| #[trigger] row_at(pos, reps, i, x as usize, k)
}

/// The two clusters cannot become one: they hold columns of one constraint, or a walk
/// along the edges of the order leads from one to the other.
pub open spec fn blocked(out: Seq<Seq<usize>>, rows: Seq<Set<u32>>, x: usize, y: usize) -> bool {
    ||| exists|k: u32| #[trigger] rows[x as int].contains(k) && rows[y as int].contains(k)
    ||| reach(out, x, y)
    ||| reach(out, y, x)
}

/// The two clusters have a linkage, and it waits for its turn.
pub open spec fn linked(maps: Seq<Map<u64, u64>>, pq: Multiset<Candidate>, x: usize, y: usize) -> bool {
    &&& maps[x as int].contains_key(y as u64)
    &&& maps[y as int].contains_key(x as u64)
    &&& maps[x as int][y as u64] == maps[y as int][x as u64]
    &&& pq.contains((maps[x as int][y as u64], lo(x, y), hi(x, y)))
}

/// The two clusters are one, or cannot become one, or their linkage waits for its turn.
pub open spec fn tied(
    out: Seq<Seq<usize>>,
    rows: Seq<Set<u32>>,
    maps: Seq<Map<u64, u64>>,
    pq: Multiset<Candidate>,
    x: usize,
    y: usize,
) -> bool {
    x == y || blocked(out, rows, x, y) || linked(maps, pq, x, y)
}

/// Labels `a` and `b` are the two nodes of edge `j`.
pub open spec fn is_end(labels: Seq<usize>, edges: Seq<Edge>, j: int, a: int, b: int) -> bool {
    &&& 0 <= j < edges.len()
    &&& 0 <= a < labels.len()
    &&& 0 <= b < labels.len()
    &&& labels[a] == edges[j].u
    &&& labels[b] == edges[j].v
}

/// The clusters of the two nodes of every edge are tied.
pub open spec fn ties_inv(
    labels: Seq<usize>,
    edges: Seq<Edge>,
    reps: Seq<usize>,
    out: Seq<Seq<usize>>,
    rows: Seq<Set<u32>>,
    maps: Seq<Map<u64, u64>>,
    pq: Multiset<Candidate>,
) -> bool {
    forall|j: int, a: int, b: int| #[trigger]
        is_end(labels, edges, j, a, b) ==> tied(out, rows, maps, pq, reps[a], reps[b])
}

/// Every pair of live clusters that was set aside cannot become one.
pub open spec fn barred_inv(
    n: int,
    dead: Seq<bool>,
    out: Seq<Seq<usize>>,
    rows: Seq<Set<u32>>,
    pairs: Set<(usize, usize)>,
) -> bool {
    forall|a: usize, b: usize|
        #[trigger] pairs.contains((a, b)) && a < n && b < n && a != b && !dead[a as int]
            && !dead[b as int] ==> blocked(out, rows, a, b)
}

/// What a merge of `l` and `r` under `w` does to the linkages: every live cluster that was
/// linked with one of the two is linked with `w`, and that linkage waits; the linkages
/// among the others stay, and so does what waited.
pub open spec fn relinked(
    n: int,
    maps: Seq<Map<u64, u64>>,
    pq: Multiset<Candidate>,
    dead: Seq<bool>,
    maps2: Seq<Map<u64, u64>>,
    pq2: Multiset<Candidate>,
    l: usize,
    r: usize,
    w: usize,
) -> bool {
    &&& maps2.len() == n
    &&& forall|c: usize|
        c < n && !dead[c as int] && c != l && c != r && (maps[l as int].contains_key(c as u64)
            || maps[r as int].contains_key(c as u64)) ==> #[trigger] linked(maps2, pq2, w, c)
    &&& forall|x: int, k: u64|
        0 <= x < n && x != w && k != w && #[trigger] maps[x].contains_key(k) ==> maps2[x].contains_key(
            k,
        ) && maps2[x][k] == maps[x][k]
    &&& forall|c: Candidate| pq.contains(c) ==> #[trigger] pq2.contains(c)
    &&& forall|x: int, k: u64|
        0 <= x < n && #[trigger] maps2[x].contains_key(k) ==> maps[x].contains_key(k) || (x == w
            && from_pair(n, maps, dead, l, r, k)) || (k == w && from_pair(
            n,
            maps,
            dead,
            l,
            r,
            x as u64,
        ))
}

/// Cluster `c` is live, is neither `l` nor `r`, and has a linkage with one of the two.
pub open spec fn from_pair(
    n: int,
    maps: Seq<Map<u64, u64>>,
    dead: Seq<bool>,
    l: usize,
    r: usize,
    c: u64,
) -> bool {
    &&& c < n
    &&& !dead[c as int]
    &&& c != l
    &&& c != r
    &&& maps[l as int].contains_key(c) || maps[r as int].contains_key(c)
}

/// The walk with `w` in place of `m`.
pub open spec fn walk_moved(p: Seq<usize>, w: usize, m: usize) -> Seq<usize> {
    Seq::new(p.len(), |k: int| renamed_to(p[k], w, m))
}

/// A walk is still a walk after a merge, with the merged cluster in place of the absorbed.
pub proof fn lemma_walk_moved(
    out: Seq<Seq<usize>>,
    out2: Seq<Seq<usize>>,
    w: usize,
    m: usize,
    p: Seq<usize>,
)
    requires
        is_walk(out, p),
        edges_moved(out, out2, w, m),
        w < out.len(),
        m < out.len(),
        w != m,
        !out[w as int].contains(m),
        !out[m as int].contains(m),
    ensures
        is_walk(out2, walk_moved(p, w, m)),
{
    let q = walk_moved(p, w, m);
    assert forall|k: int| 0 <= k < q.len() - 1 implies #[trigger] edge_at(out2, q, k) by {
        assert(edge_at(out, p, k));
        let x = p[k];
        let y = p[k + 1];
        if x == w || x == m {
            assert(out2[w as int].contains(y));
        } else {
            assert(out2[x as int].contains(renamed_to(y, w, m)));
        }
    }
}

/// Two clusters that cannot become one can still not after a merge of two others.
pub proof fn lemma_blocked_moved(
    out: Seq<Seq<usize>>,
    rows: Seq<Set<u32>>,
    out2: Seq<Seq<usize>>,
    rows2: Seq<Set<u32>>,
    w: usize,
    m: usize,
    x: usize,
    y: usize,
)
    requires
        out.len() == rows.len(),
        rows2.len() == rows.len(),
        x < out.len(),
        y < out.len(),
        w < out.len(),
        m < out.len(),
        w != m,
        !out[w as int].contains(m),
        !out[m as int].contains(m),
        edges_moved(out, out2, w, m),
        rows2[w as int] == rows[w as int].union(rows[m as int]),
        forall|z: int| 0 <= z < rows.len() && z != w && z != m ==> rows2[z] == rows[z],
        blocked(out, rows, x, y),
    ensures
        blocked(out2, rows2, renamed_to(x, w, m), renamed_to(y, w, m)),
{
    let x2 = renamed_to(x, w, m);
    let y2 = renamed_to(y, w, m);
    if exists|k: u32| #[trigger] rows[x as int].contains(k) && rows[y as int].contains(k) {
        let k = choose|k: u32| #[trigger] rows[x as int].contains(k) && rows[y as int].contains(k);
        assert(rows2[x2 as int].contains(k) && rows2[y2 as int].contains(k));
    } else if reach(out, x, y) {
        let p = choose|p: Seq<usize>| #[trigger] is_walk(out, p) && p[0] == x && p[p.len() - 1] == y;
        lemma_walk_moved(out, out2, w, m, p);
        let q = walk_moved(p, w, m);
        assert(is_walk(out2, q) && q[0] == x2 && q[q.len() - 1] == y2);
    } else {
        let p = choose|p: Seq<usize>| #[trigger] is_walk(out, p) && p[0] == y && p[p.len() - 1] == x;
        lemma_walk_moved(out, out2, w, m, p);
        let q = walk_moved(p, w, m);
        assert(is_walk(out2, q) && q[0] == y2 && q[q.len() - 1] == x2);
    }
}

/// A merge keeps what holds of the edges of the order, of the constraints of the clusters,
/// of the linkages and of the pairs that were set aside.
pub proof fn lemma_merge_keeps_links(
    n: int,
    pos: Seq<Pos>,
    labels: Seq<usize>,
    edges: Seq<Edge>,
    reps: Seq<usize>,
    dead: Seq<bool>,
    out: Seq<Seq<usize>>,
    rows: Seq<Set<u32>>,
    maps: Seq<Map<u64, u64>>,
    pq0: Multiset<Candidate>,
    pq: Multiset<Candidate>,
    pairs: Set<(usize, usize)>,
    l: usize,
    r: usize,
    w: usize,
    m: usize,
    reps2: Seq<usize>,
    dead2: Seq<bool>,
    out2: Seq<Seq<usize>>,
    rows2: Seq<Set<u32>>,
    maps2: Seq<Map<u64, u64>>,
    pq2: Multiset<Candidate>,
)
    requires
        n <= usize::MAX,
        pos.len() == n && labels.len() == n && reps.len() == n && dead.len() == n && out.len() == n
            && rows.len() == n && maps.len() == n && rows2.len() == n,
        forall|i: int| 0 <= i < n ==> (#[trigger] reps[i]) < n && !dead[reps[i] as int],
        forall|x: int, y: usize| 0 <= x < n && #[trigger] out[x].contains(y) ==> y < n,
        l < n,
        r < n,
        l != r,
        !dead[l as int],
        !dead[r as int],
        (w == l && m == r) || (w == r && m == l),
        !out[l as int].contains(r),
        !out[r as int].contains(l),
        !out[l as int].contains(l),
        !out[r as int].contains(r),
        grounded(pos, reps, out),
        rows_grounded(pos, reps, dead, rows),
        ties_inv(labels, edges, reps, out, rows, maps, pq0),
        forall|c: Candidate|
            #[trigger] pq0.contains(c) && !((c.1 == l && c.2 == r) || (c.1 == r && c.2 == l))
                ==> pq.contains(c),
        barred_inv(n, dead, out, rows, pairs),
        reps2 == joined(reps, l, r, w),
        dead2 == dead.update(m as int, true),
        edges_moved(out, out2, w, m),
        rows2[w as int] == rows[l as int].union(rows[r as int]),
        forall|x: int| 0 <= x < n && x != w && x != m ==> rows2[x] == rows[x],
        relinked(n, maps, pq, dead, maps2, pq2, l, r, w),
    ensures
        grounded(pos, reps2, out2),
        rows_grounded(pos, reps2, dead2, rows2),
        ties_inv(labels, edges, reps2, out2, rows2, maps2, pq2),
        barred_inv(n, dead2, out2, rows2, pairs),
{
    assert(rows2[w as int] =~= rows[w as int].union(rows[m as int]));
    assert forall|i: int| 0 <= i < n implies #[trigger] reps2[i] == renamed_to(
        renamed_to(reps[i], w, l),
        w,
        r,
    ) by {}
    assert forall|x: int, y: usize| 0 <= x < out2.len() && #[trigger] out2[x].contains(
        y,
    ) implies exists|i: int| #[trigger] ground_at(pos, reps2, i, x as usize, y) by {
        if x == w {
            if out[w as int].contains(y) {
                let i = choose|i: int| #[trigger] ground_at(pos, reps, i, w, y);
                assert(ground_at(pos, reps2, i, x as usize, y));
            } else {
                assert(out[m as int].contains(y));
                let i = choose|i: int| #[trigger] ground_at(pos, reps, i, m, y);
                assert(ground_at(pos, reps2, i, x as usize, y));
            }
        } else if x == m {
            assert(out2[m as int].len() == 0);
        } else {
            if y != m && out[x].contains(y) {
                let i = choose|i: int| #[trigger] ground_at(pos, reps, i, x as usize, y);
                assert(ground_at(pos, reps2, i, x as usize, y));
            } else {
                assert(y == w && out[x].contains(m));
                let i = choose|i: int| #[trigger] ground_at(pos, reps, i, x as usize, m);
                assert(ground_at(pos, reps2, i, x as usize, y));
            }
        }
    }
    assert forall|x: int, k: u32|
        0 <= x < rows2.len() && !dead2[x] && #[trigger] rows2[x].contains(k) implies exists|i: int| #[trigger] row_at(pos, reps2, i, x as usize, k) by {
        if x == w {
            if rows[l as int].contains(k) {
                let i = choose|i: int| #[trigger] row_at(pos, reps, i, l, k);
                assert(row_at(pos, reps2, i, x as usize, k));
            } else {
                assert(rows[r as int].contains(k));
                let i = choose|i: int| #[trigger] row_at(pos, reps, i, r, k);
                assert(row_at(pos, reps2, i, x as usize, k));
            }
        } else {
            assert(rows2[x] == rows[x]);
            let i = choose|i: int| #[trigger] row_at(pos, reps, i, x as usize, k);
            assert(row_at(pos, reps2, i, x as usize, k));
        }
    }
    assert forall|j: int, a: int, b: int| #[trigger] is_end(labels, edges, j, a, b) implies tied(
        out2,
        rows2,
        maps2,
        pq2,
        reps2[a],
        reps2[b],
    ) by {
        let x = reps[a];
        let y = reps[b];
        let x2 = reps2[a];
        let y2 = reps2[b];
        assert(tied(out, rows, maps, pq0, x, y));
        assert(x2 == renamed_to(x, w, m) && y2 == renamed_to(y, w, m));
        if x2 == y2 {
        } else if blocked(out, rows, x, y) {
            lemma_blocked_moved(out, rows, out2, rows2, w, m, x, y);
        } else {
            assert(linked(maps, pq0, x, y));
            if x == l || x == r {
                assert(linked(maps2, pq2, w, y));
            } else if y == l || y == r {
                assert(linked(maps2, pq2, w, x));
            } else {
                let c = (maps[x as int][y as u64], lo(x, y), hi(x, y));
                assert(pq0.contains(c));
                assert(pq.contains(c));
                assert(pq2.contains(c));
                assert(maps[x as int].contains_key(y as u64));
                assert(maps[y as int].contains_key(x as u64));
            }
        }
    }
    assert forall|a: usize, b: usize|
        #[trigger] pairs.contains((a, b)) && a < n && b < n && a != b && !dead2[a as int]
            && !dead2[b as int] implies blocked(out2, rows2, a, b) by {
        assert(blocked(out, rows, a, b));
        lemma_blocked_moved(out, rows, out2, rows2, w, m, a, b);
    }
}

/// Two clusters that cannot become one cannot, whichever is named first.
pub proof fn lemma_blocked_sym(out: Seq<Seq<usize>>, rows: Seq<Set<u32>>, x: usize, y: usize)
    requires
        blocked(out, rows, x, y),
    ensures
        blocked(out, rows, y, x),
{
    if exists|k: u32| #[trigger] rows[x as int].contains(k) && rows[y as int].contains(k) {
        let k = choose|k: u32| #[trigger] rows[x as int].contains(k) && rows[y as int].contains(k);
        assert(rows[y as int].contains(k) && rows[x as int].contains(k));
    }
}

/// The ties stay where every linkage of two live clusters stays or the two cannot become
/// one.
pub proof fn lemma_ties_kept(
    labels: Seq<usize>,
    edges: Seq<Edge>,
    reps: Seq<usize>,
    dead: Seq<bool>,
    out: Seq<Seq<usize>>,
    rows: Seq<Set<u32>>,
    maps: Seq<Map<u64, u64>>,
    pq: Multiset<Candidate>,
    maps2: Seq<Map<u64, u64>>,
    pq2: Multiset<Candidate>,
)
    requires
        labels.len() == reps.len(),
        forall|i: int| 0 <= i < reps.len() ==> !dead[(#[trigger] reps[i]) as int],
        ties_inv(labels, edges, reps, out, rows, maps, pq),
        forall|x: usize, y: usize|
            x != y && !dead[x as int] && !dead[y as int] && #[trigger] linked(maps, pq, x, y)
                ==> linked(maps2, pq2, x, y) || blocked(out, rows, x, y),
    ensures
        ties_inv(labels, edges, reps, out, rows, maps2, pq2),
{
    assert forall|j: int, a: int, b: int| #[trigger] is_end(labels, edges, j, a, b) implies tied(
        out,
        rows,
        maps2,
        pq2,
        reps[a],
        reps[b],
    ) by {
        assert(tied(out, rows, maps, pq, reps[a], reps[b]));
    }
}

/// The ranking rises along a walk.
pub proof fn lemma_rank_rises(out: Seq<Seq<usize>>, rank: Seq<int>, p: Seq<usize>, k: int)
    requires
        is_walk(out, p),
        forall|x: int, y: usize|
            0 <= x < out.len() && #[trigger] out[x].contains(y) ==> rank[x] < rank[y as int],
        1 <= k < p.len(),
    ensures
        rank[p[0] as int] < rank[p[k] as int],
    decreases k,
{
    assert(edge_at(out, p, k - 1));
    if k > 1 {
        lemma_rank_rises(out, rank, p, k - 1);
    }
}

/// No walk leads back to where it set out while some ranking rises along every edge.
pub proof fn lemma_no_cycle(out: Seq<Seq<usize>>, rank: Seq<int>, x: usize)
    requires
        forall|x: int, y: usize|
            0 <= x < out.len() && #[trigger] out[x].contains(y) ==> rank[x] < rank[y as int],
    ensures
        !reach(out, x, x),
{
    if reach(out, x, x) {
        let p = choose|p: Seq<usize>| #[trigger] is_walk(out, p) && p[0] == x && p[p.len() - 1] == x;
        lemma_rank_rises(out, rank, p, p.len() - 1);
    }
}

/// Some column of the first cluster lies before a column of the second in the constraint of
/// the two.
pub open spec fn precedes(c: Seq<Pos>, d: Seq<Pos>) -> bool {
    exists|a: int, b: int|
        0 <= a < c.len() && 0 <= b < d.len() && (#[trigger] c[a]).0 == (#[trigger] d[b]).0 && c[a].1
            < d[b].1
}

/// Cluster `q[k]` of the trace has a column that lies before a column of cluster `q[k + 1]`.
pub open spec fn step_at(t: Seq<Seq<Pos>>, q: Seq<int>, k: int) -> bool {
    0 <= q[k] < t.len() && 0 <= q[k + 1] < t.len() && precedes(t[q[k]], t[q[k + 1]])
}

/// A chain of clusters of the trace: two or more, each with a column that lies before a
/// column of the next.
pub open spec fn is_chain(t: Seq<Seq<Pos>>, q: Seq<int>) -> bool {
    &&& q.len() >= 2
    &&& forall|k: int| 0 <= k < q.len() - 1 ==> #[trigger] step_at(t, q, k)
}

/// A chain leads from cluster `x` of the trace to cluster `y`: in every trace that holds
/// the clusters of the chain, `x` comes before `y`.
pub open spec fn leads(t: Seq<Seq<Pos>>, x: int, y: int) -> bool {
    exists|q: Seq<int>| #[trigger] is_chain(t, q) && q[0] == x && q[q.len() - 1] == y
}

/// Nothing is left to do for two columns: they stand in one cluster, or a chain leads from
/// the cluster of one to the cluster of the other, so that the two clusters cannot become
/// one in any trace that holds the clusters of the chain.
pub open spec fn settled(t: Seq<Seq<Pos>>, p: Pos, q: Pos) -> bool {
    ||| together(t, p, q)
    ||| leads(t, holder(t, p), holder(t, q))
    ||| leads(t, holder(t, q), holder(t, p))
}

/// Cluster `idx[k]` of the trace `u` holds the columns of cluster `q[k]` of the trace `t`.
pub open spec fn held_at(u: Seq<Seq<Pos>>, t: Seq<Seq<Pos>>, q: Seq<int>, idx: Seq<int>, k: int) -> bool {
    &&& 0 <= idx[k] < u.len()
    &&& forall|p: Pos| #[trigger] t[q[k]].contains(p) ==> u[idx[k]].contains(p)
}

/// The trace `u` holds the clusters of the chain `q` of the trace `t`, each in the cluster
/// that `idx` names, maybe with more columns.
pub open spec fn chain_held(u: Seq<Seq<Pos>>, t: Seq<Seq<Pos>>, q: Seq<int>, idx: Seq<int>) -> bool {
    &&& idx.len() == q.len()
    &&& forall|k: int| 0 <= k < q.len() ==> #[trigger] held_at(u, t, q, idx, k)
}

proof fn lemma_chain_rises_upto(
    u: Seq<Seq<Pos>>,
    counts: Seq<usize>,
    t: Seq<Seq<Pos>>,
    q: Seq<int>,
    idx: Seq<int>,
    k: int,
)
    requires
        is_trace(u, counts),
        is_chain(t, q),
        chain_held(u, t, q, idx),
        1 <= k < q.len(),
    ensures
        idx[0] < idx[k],
    decreases k,
{
    if k > 1 {
        lemma_chain_rises_upto(u, counts, t, q, idx, k - 1);
    }
    assert(step_at(t, q, k - 1));
    assert(held_at(u, t, q, idx, k - 1) && held_at(u, t, q, idx, k));
    let c = t[q[k - 1]];
    let d = t[q[k]];
    let (a, b) = choose|a: int, b: int|
        0 <= a < c.len() && 0 <= b < d.len() && (#[trigger] c[a]).0 == (#[trigger] d[b]).0 && c[a].1
            < d[b].1;
    let x = idx[k - 1];
    let y = idx[k];
    assert(c.contains(c[a]) && d.contains(d[b]));
    assert(u[x].contains(c[a]) && u[y].contains(d[b]));
    let i = choose|i: int| 0 <= i < u[x].len() && u[x][i] == c[a];
    let j = choose|j: int| 0 <= j < u[y].len() && u[y][j] == d[b];
    if x == y {
        assert(distinct_constraints(u[x]));
        if i < j {
            assert(u[x][i].0 != u[x][j].0);
        } else if j < i {
            assert(u[x][j].0 != u[x][i].0);
        }
    } else if y < x {
        assert(strictly_before(u[y], u[x]));
        assert(u[y][j].0 == u[x][i].0);
    }
}

/// In every trace that holds the clusters of a chain, maybe with more columns each, the
/// first cluster of the chain comes before the last: no trace holds the two as one cluster.
pub proof fn lemma_chain_rises(
    u: Seq<Seq<Pos>>,
    counts: Seq<usize>,
    t: Seq<Seq<Pos>>,
    q: Seq<int>,
    idx: Seq<int>,
)
    requires
        is_trace(u, counts),
        is_chain(t, q),
        chain_held(u, t, q, idx),
    ensures
        idx[0] < idx[idx.len() - 1],
{
    lemma_chain_rises_upto(u, counts, t, q, idx, q.len() - 1);
}

/// A column of a trace stands in one cluster only.
pub proof fn lemma_holder_in_trace(t: Seq<Seq<Pos>>, counts: Seq<usize>, p: Pos, x: int)
    requires
        is_trace(t, counts),
        0 <= x < t.len(),
        t[x].contains(p),
    ensures
        holder(t, p) == x,
{
    assert forall|y: int| 0 <= y < t.len() && (#[trigger] t[y]).contains(p) implies y == x by {
        let a = choose|a: int| 0 <= a < t[x].len() && t[x][a] == p;
        let b = choose|b: int| 0 <= b < t[y].len() && t[y][b] == p;
        if x < y {
            assert(strictly_before(t[x], t[y]));
            assert(t[x][a].0 == t[y][b].0);
        } else if y < x {
            assert(strictly_before(t[y], t[x]));
            assert(t[y][b].0 == t[x][a].0);
        }
    }
    lemma_holder_is(t, p, x);
}

/// What the trace of the clusters needs of the tracer: every label stands in the cluster of
/// the trace that is the place of its cluster.
pub open spec fn placed(
    pos: Seq<Pos>,
    reps: Seq<usize>,
    place: Seq<usize>,
    t: Seq<Seq<Pos>>,
) -> bool {
    forall|i: int|
        0 <= i < pos.len() ==> (#[trigger] reps[i]) < place.len() && place[reps[i] as int] < t.len()
            && t[place[reps[i] as int] as int].contains(pos[i])
}

/// The places of the clusters of a walk.
pub open spec fn walk_places(p: Seq<usize>, place: Seq<usize>) -> Seq<int> {
    Seq::new(p.len(), |k: int| place[p[k] as int] as int)
}

/// An edge of the order between two clusters shows in the trace: a column of the first lies
/// before a column of the second.
proof fn lemma_edge_precedes(
    pos: Seq<Pos>,
    reps: Seq<usize>,
    out: Seq<Seq<usize>>,
    place: Seq<usize>,
    t: Seq<Seq<Pos>>,
    x: usize,
    y: usize,
)
    requires
        forall|i: int, j: int| 0 <= i < j < pos.len() ==> lex_lt(pos[i], pos[j]),
        grounded(pos, reps, out),
        placed(pos, reps, place, t),
        x < out.len(),
        out[x as int].contains(y),
    ensures
        x < place.len() && y < place.len(),
        place[x as int] < t.len() && place[y as int] < t.len(),
        precedes(t[place[x as int] as int], t[place[y as int] as int]),
{
    let i = choose|i: int| #[trigger] ground_at(pos, reps, i, x, y);
    assert(lex_lt(pos[i], pos[i + 1]));
    assert(reps[i] == x && reps[i + 1] == y);
    let c = t[place[x as int] as int];
    let d = t[place[y as int] as int];
    assert(c.contains(pos[i]) && d.contains(pos[i + 1]));
    let a = choose|a: int| 0 <= a < c.len() && c[a] == pos[i];
    let b = choose|b: int| 0 <= b < d.len() && d[b] == pos[i + 1];
    assert(c[a].0 == d[b].0 && c[a].1 < d[b].1);
}

/// Two labels whose clusters are one or cannot become one are settled in the trace of the
/// clusters.
pub proof fn lemma_settled(
    pos: Seq<Pos>,
    reps: Seq<usize>,
    dead: Seq<bool>,
    out: Seq<Seq<usize>>,
    rows: Seq<Set<u32>>,
    counts: Seq<usize>,
    place: Seq<usize>,
    t: Seq<Seq<Pos>>,
    a: int,
    b: int,
)
    requires
        is_trace(t, counts),
        reps.len() == pos.len() && out.len() == pos.len() && rows.len() == pos.len(),
        forall|i: int, j: int| 0 <= i < j < pos.len() ==> lex_lt(pos[i], pos[j]),
        forall|i: int| 0 <= i < pos.len() ==> (#[trigger] reps[i]) < pos.len() && !dead[reps[i] as int],
        grounded(pos, reps, out),
        rows_grounded(pos, reps, dead, rows),
        placed(pos, reps, place, t),
        0 <= a < pos.len(),
        0 <= b < pos.len(),
        a != b,
        reps[a] == reps[b] || blocked(out, rows, reps[a], reps[b]),
    ensures
        settled(t, pos[a], pos[b]),
{
    let x = reps[a];
    let y = reps[b];
    let px = place[x as int] as int;
    let py = place[y as int] as int;
    lemma_holder_in_trace(t, counts, pos[a], px);
    lemma_holder_in_trace(t, counts, pos[b], py);
    if a < b {
        assert(lex_lt(pos[a], pos[b]));
    } else {
        assert(lex_lt(pos[b], pos[a]));
    }
    if x == y {
    } else if exists|k: u32| #[trigger] rows[x as int].contains(k) && rows[y as int].contains(k) {
        let k = choose|k: u32| #[trigger] rows[x as int].contains(k) && rows[y as int].contains(k);
        let i = choose|i: int| #[trigger] row_at(pos, reps, i, x, k);
        let j = choose|j: int| #[trigger] row_at(pos, reps, j, y, k);
        let c = t[px];
        let d = t[py];
        assert(c.contains(pos[i]) && d.contains(pos[j]));
        let ci = choose|ci: int| 0 <= ci < c.len() && c[ci] == pos[i];
        let dj = choose|dj: int| 0 <= dj < d.len() && d[dj] == pos[j];
        if i < j {
            assert(lex_lt(pos[i], pos[j]));
            assert(c[ci].0 == d[dj].0 && c[ci].1 < d[dj].1);
            let q = seq![px, py];
            assert forall|k: int| 0 <= k < q.len() - 1 implies #[trigger] step_at(t, q, k) by {}
            assert(is_chain(t, q) && q[0] == px && q[q.len() - 1] == py);
        } else {
            assert(lex_lt(pos[j], pos[i]));
            assert(d[dj].0 == c[ci].0 && d[dj].1 < c[ci].1);
            let q = seq![py, px];
            assert forall|k: int| 0 <= k < q.len() - 1 implies #[trigger] step_at(t, q, k) by {}
            assert(is_chain(t, q) && q[0] == py && q[q.len() - 1] == px);
        }
    } else if reach(out, x, y) {
        let p = choose|p: Seq<usize>| #[trigger] is_walk(out, p) && p[0] == x && p[p.len() - 1] == y;
        let q = walk_places(p, place);
        assert forall|k: int| 0 <= k < q.len() - 1 implies #[trigger] step_at(t, q, k) by {
            assert(edge_at(out, p, k));
            lemma_edge_precedes(pos, reps, out, place, t, p[k], p[k + 1]);
        }
        assert(is_chain(t, q) && q[0] == px && q[q.len() - 1] == py);
    } else {
        let p = choose|p: Seq<usize>| #[trigger] is_walk(out, p) && p[0] == y && p[p.len() - 1] == x;
        let q = walk_places(p, place);
        assert forall|k: int| 0 <= k < q.len() - 1 implies #[trigger] step_at(t, q, k) by {
            assert(edge_at(out, p, k));
            lemma_edge_precedes(pos, reps, out, place, t, p[k], p[k + 1]);
        }
        assert(is_chain(t, q) && q[0] == py && q[q.len() - 1] == px);
    }
}

/// Edge `j` joins columns of two constraints and is heavier than every other edge.
pub open spec fn heaviest_cross(npos: Seq<Pos>, edges: Seq<Edge>, j: int) -> bool {
    &&& 0 <= j < edges.len()
    &&& npos[edges[j].u as int].0 != npos[edges[j].v as int].0
    &&& forall|i: int| 0 <= i < edges.len() && i != j ==> (#[trigger] edges[i]).w < edges[j].w
}

/// The candidate is the linkage of the two nodes of an edge, with the weight of the edge.
pub open spec fn sourced(labels: Seq<usize>, edges: Seq<Edge>, c: Candidate) -> bool {
    exists|j: int, a: int, b: int|
        #[trigger] is_end(labels, edges, j, a, b) && c == (
            edges[j].w,
            lo(a as usize, b as usize),
            hi(a as usize, b as usize),
        )
}

/// Nothing has been merged yet: every label is its own cluster, none is absorbed, no pair
/// is set aside, and what waits are the linkages of the edges.
pub open spec fn fresh_start(
    n: int,
    labels: Seq<usize>,
    edges: Seq<Edge>,
    reps: Seq<usize>,
    dead: Seq<bool>,
    pairs: Set<(usize, usize)>,
    pq: Multiset<Candidate>,
) -> bool {
    &&& reps.len() == n
    &&& dead.len() == n
    &&& forall|i: int| 0 <= i < n ==> #[trigger] reps[i] == i
    &&& forall|x: int| 0 <= x < n ==> !#[trigger] dead[x]
    &&& forall|a: usize, b: usize| !pairs.contains((a, b))
    &&& forall|c: Candidate| #[trigger] pq.contains(c) ==> sourced(labels, edges, c)
}

/// The two nodes of an edge between two constraints that is heavier than every other edge
/// are in one cluster.
pub open spec fn top_joined(
    npos: Seq<Pos>,
    labels: Seq<usize>,
    edges: Seq<Edge>,
    reps: Seq<usize>,
) -> bool {
    forall|j: int, a: int, b: int|
        #[trigger] is_end(labels, edges, j, a, b) && heaviest_cross(npos, edges, j) ==> reps[a]
            == reps[b]
}

/// Before any merge a walk stays among the columns of one constraint.
proof fn lemma_walk_in_constraint(
    pos: Seq<Pos>,
    reps: Seq<usize>,
    out: Seq<Seq<usize>>,
    p: Seq<usize>,
    k: int,
)
    requires
        reps.len() == pos.len(),
        out.len() == pos.len(),
        forall|i: int| 0 <= i < reps.len() ==> #[trigger] reps[i] == i,
        grounded(pos, reps, out),
        is_walk(out, p),
        1 <= k < p.len(),
    ensures
        p[k] < pos.len(),
        p[0] < pos.len(),
        pos[p[k] as int].0 == pos[p[0] as int].0,
    decreases k,
{
    assert(edge_at(out, p, k - 1));
    let x = p[k - 1];
    let i = choose|i: int| #[trigger] ground_at(pos, reps, i, x, p[k]);
    assert(reps[i] == i && reps[i + 1] == i + 1);
    if k > 1 {
        lemma_walk_in_constraint(pos, reps, out, p, k - 1);
    }
}

/// Before any merge the linkage of the heaviest edge between two constraints waits, and
/// nothing stands against the merge of its two nodes.
pub proof fn lemma_first_linked(
    npos: Seq<Pos>,
    labels: Seq<usize>,
    edges: Seq<Edge>,
    pos: Seq<Pos>,
    reps: Seq<usize>,
    dead: Seq<bool>,
    out: Seq<Seq<usize>>,
    rows: Seq<Set<u32>>,
    maps: Seq<Map<u64, u64>>,
    pq: Multiset<Candidate>,
    pairs: Set<(usize, usize)>,
    j: int,
    a: int,
    b: int,
)
    requires
        labels.len() == pos.len(),
        labels.len() <= usize::MAX,
        out.len() == pos.len(),
        rows.len() == pos.len(),
        forall|i: int| 0 <= i < labels.len() ==> #[trigger] pos[i] == npos[labels[i] as int],
        fresh_start(pos.len() as int, labels, edges, reps, dead, pairs, pq),
        grounded(pos, reps, out),
        rows_grounded(pos, reps, dead, rows),
        ties_inv(labels, edges, reps, out, rows, maps, pq),
        is_end(labels, edges, j, a, b),
        heaviest_cross(npos, edges, j),
    ensures
        a != b,
        !blocked(out, rows, a as usize, b as usize),
        !reach(out, a as usize, a as usize),
        !reach(out, b as usize, b as usize),
        linked(maps, pq, a as usize, b as usize),
{
    let x = a as usize;
    let y = b as usize;
    assert(pos[a].0 != pos[b].0);
    assert(tied(out, rows, maps, pq, reps[a], reps[b]));
    if exists|k: u32| #[trigger] rows[x as int].contains(k) && rows[y as int].contains(k) {
        let k = choose|k: u32| #[trigger] rows[x as int].contains(k) && rows[y as int].contains(k);
        let i = choose|i: int| #[trigger] row_at(pos, reps, i, x, k);
        let i2 = choose|i2: int| #[trigger] row_at(pos, reps, i2, y, k);
        assert(reps[i] == i && reps[i2] == i2);
    }
    if reach(out, x, y) {
        let p = choose|p: Seq<usize>| #[trigger] is_walk(out, p) && p[0] == x && p[p.len() - 1] == y;
        lemma_walk_in_constraint(pos, reps, out, p, p.len() - 1);
    }
    if reach(out, y, x) {
        let p = choose|p: Seq<usize>| #[trigger] is_walk(out, p) && p[0] == y && p[p.len() - 1] == x;
        lemma_walk_in_constraint(pos, reps, out, p, p.len() - 1);
    }
    if reach(out, x, x) {
        let p = choose|p: Seq<usize>| #[trigger] is_walk(out, p) && p[0] == x && p[p.len() - 1] == x;
        lemma_walk_leaves(pos, reps, out, p, p.len() - 1);
    }
    if reach(out, y, y) {
        let p = choose|p: Seq<usize>| #[trigger] is_walk(out, p) && p[0] == y && p[p.len() - 1] == y;
        lemma_walk_leaves(pos, reps, out, p, p.len() - 1);
    }
}

/// Before any merge a walk leads to a later label.
proof fn lemma_walk_leaves(pos: Seq<Pos>, reps: Seq<usize>, out: Seq<Seq<usize>>, p: Seq<usize>, k: int)
    requires
        reps.len() == pos.len(),
        out.len() == pos.len(),
        forall|i: int| 0 <= i < reps.len() ==> #[trigger] reps[i] == i,
        grounded(pos, reps, out),
        is_walk(out, p),
        1 <= k < p.len(),
    ensures
        p[0] < p[k],
    decreases k,
{
    assert(edge_at(out, p, k - 1));
    let x = p[k - 1];
    let i = choose|i: int| #[trigger] ground_at(pos, reps, i, x, p[k]);
    assert(reps[i] == i && reps[i + 1] == i + 1);
    if k > 1 {
        lemma_walk_leaves(pos, reps, out, p, k - 1);
    }
}

/// Before any merge the linkage that comes first is that of the heaviest edge between two
/// constraints, where there is such an edge.
pub proof fn lemma_first_top(
    sims: crate::sims::Sims,
    npos: Seq<Pos>,
    labels: Seq<usize>,
    maps: Seq<Map<u64, u64>>,
    pq: Multiset<Candidate>,
    j: int,
    a: int,
    b: int,
    top: Candidate,
)
    requires
        sims.wf(),
        labels.len() <= usize::MAX,
        forall|i: int, k: int| 0 <= i < k < labels.len() ==> labels[i] < labels[k],
        forall|c: Candidate| #[trigger] pq.contains(c) ==> sourced(labels, sims.edges@, c),
        is_end(labels, sims.edges@, j, a, b),
        heaviest_cross(npos, sims.edges@, j),
        linked(maps, pq, a as usize, b as usize),
        pq.contains(top),
        forall|c: Candidate| pq.contains(c) ==> crate::queue::candidate_le(c, top),
    ensures
        top == (sims.edges@[j].w, lo(a as usize, b as usize), hi(a as usize, b as usize)),
        maps[a].contains_key(b as u64),
        maps[b].contains_key(a as u64),
        maps[a][b as u64] == sims.edges@[j].w,
        maps[b][a as u64] == sims.edges@[j].w,
{
    let edges = sims.edges@;
    let x = a as usize;
    let y = b as usize;
    let cj = (maps[a][y as u64], lo(x, y), hi(x, y));
    assert(pq.contains(cj));
    assert(sourced(labels, edges, cj));
    let (j1, a1, b1) = choose|j1: int, a1: int, b1: int|
        #[trigger] is_end(labels, edges, j1, a1, b1) && cj == (
            edges[j1].w,
            lo(a1 as usize, b1 as usize),
            hi(a1 as usize, b1 as usize),
        );
    assert(edges[j1].u < edges[j1].v && edges[j].u < edges[j].v);
    assert(a1 < b1 && a < b) by {
        if b1 <= a1 {
            if b1 < a1 {
                assert(labels[b1] < labels[a1]);
            }
        }
        if b <= a {
            if b < a {
                assert(labels[b] < labels[a]);
            }
        }
    }
    assert(a1 == a && b1 == b);
    assert(j1 == j) by {
        sims.lemma_weight_at(j);
        sims.lemma_weight_at(j1);
        if j1 != j {
            assert(edges[j1].w < edges[j].w);
            assert(sims.weight(edges[j].u, edges[j].v) == edges[j].w);
            assert(sims.weight(edges[j1].u, edges[j1].v) == edges[j1].w);
        }
    }
    assert(crate::queue::candidate_le(cj, top));
    assert(sourced(labels, edges, top));
    let (j2, a2, b2) = choose|j2: int, a2: int, b2: int|
        #[trigger] is_end(labels, edges, j2, a2, b2) && top == (
            edges[j2].w,
            lo(a2 as usize, b2 as usize),
            hi(a2 as usize, b2 as usize),
        );
    assert(j2 == j);
    assert(a2 == a && b2 == b) by {
        if a2 != a {
            if a2 < a {
                assert(labels[a2] < labels[a]);
            } else {
                assert(labels[a] < labels[a2]);
            }
        }
        if b2 != b {
            if b2 < b {
                assert(labels[b2] < labels[b]);
            } else {
                assert(labels[b] < labels[b2]);
            }
        }
    }
}

} // verus!
