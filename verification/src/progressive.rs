use vstd::prelude::*;
use fixedbitset::FixedBitSet;
use rand::rngs::SmallRng;
use crate::bits::{bits_of, bitset_clear, bitset_contains, bitset_new, bitset_set};
use crate::naive_upgma::unmarked;
use crate::rng::{rng_in_range, rng_sample, rng_shuffle};
use crate::cluster::{
    cluster_in_range, distinct_constraints, holder, hosts, index_clusters, is_sorted_trace, is_trace,
    key_of, ordered, pos_key, rows_of, score_upto, sorted_by_constraint, strictly_before,
    ClusteringResult, Graph, Pos,
};
use crate::dp::{check_dp_fits, dp_choice, dp_fits, fill_tables, has_shape, is_weights, DIAGONAL, UP};
use crate::exact_solver::reversed;
use crate::grid::{cells_of, grid_get, grid_set, grid_zeros, Grid};
use crate::maps::{entries_get, entries_of};
use crate::sims::{lemma_weight_sum_bounds, weight_sum, Edge, WEIGHT_CAP};
use crate::state::AlnState;
use crate::kept::{lemma_refined_on, lemma_run_keeps, no_empty, refined_from, same_columns};

verus! {

/// Whether constraint `k` is on the chosen side of the partition.
pub open spec fn in_part(part: Seq<bool>, k: u32) -> bool {
    k < part.len() && part[k as int]
}

/// The columns of a cluster whose constraints are on the given side, in their order.
pub open spec fn side_of(c: Seq<Pos>, part: Seq<bool>, side: bool) -> Seq<Pos>
    decreases c.len(),
{
    if c.len() == 0 {
        Seq::empty()
    } else if in_part(part, c.last().0) == side {
        side_of(c.drop_last(), part, side).push(c.last())
    } else {
        side_of(c.drop_last(), part, side)
    }
}

/// What the clusters of a trace leave on one side of the partition: the part of each
/// cluster there, without the empty ones, in the order of the trace.
pub open spec fn halves(t: Seq<Seq<Pos>>, part: Seq<bool>, side: bool) -> Seq<Seq<Pos>>
    decreases t.len(),
{
    if t.len() == 0 {
        Seq::empty()
    } else if side_of(t.last(), part, side).len() > 0 {
        halves(t.drop_last(), part, side).push(side_of(t.last(), part, side))
    } else {
        halves(t.drop_last(), part, side)
    }
}

/// Every column of every cluster lies on the given side.
pub open spec fn all_on_side(t: Seq<Seq<Pos>>, part: Seq<bool>, side: bool) -> bool {
    forall|x: int, a: int|
        0 <= x < t.len() && 0 <= a < t[x].len() ==> in_part(part, (#[trigger] t[x][a]).0) == side
}

/// The cell of the table of weights that an edge between two columns feeds: the clusters
/// that hold the two, where they lie on different sides and both are held.
pub open spec fn cross_cell(
    c1: Seq<Seq<Pos>>,
    c2: Seq<Seq<Pos>>,
    part: Seq<bool>,
    p: Pos,
    q: Pos,
) -> Option<(int, int)> {
    if in_part(part, p.0) == in_part(part, q.0) {
        None
    } else {
        let a = if in_part(part, p.0) {
            p
        } else {
            q
        };
        let b = if in_part(part, p.0) {
            q
        } else {
            p
        };
        if holder(c1, a) >= 0 && holder(c2, b) >= 0 {
            Some((holder(c1, a), holder(c2, b)))
        } else {
            None
        }
    }
}

/// The weight between cluster `i` of the first side and cluster `j` of the second, over the
/// first `n` edges.
pub open spec fn cross_upto(
    c1: Seq<Seq<Pos>>,
    c2: Seq<Seq<Pos>>,
    part: Seq<bool>,
    edges: Seq<Edge>,
    pos: Seq<Pos>,
    n: int,
    i: int,
    j: int,
) -> int
    decreases n,
{
    if n <= 0 {
        0
    } else {
        cross_upto(c1, c2, part, edges, pos, n - 1, i, j) + (if cross_cell(
            c1,
            c2,
            part,
            pos[edges[n - 1].u as int],
            pos[edges[n - 1].v as int],
        ) == Some((i, j)) {
            edges[n - 1].w as int
        } else {
            0
        })
    }
}

/// The table of weights between the clusters of the two sides.
pub open spec fn cross_weights(
    c1: Seq<Seq<Pos>>,
    c2: Seq<Seq<Pos>>,
    part: Seq<bool>,
    edges: Seq<Edge>,
    pos: Seq<Pos>,
) -> Seq<Seq<u64>> {
    Seq::new(
        c1.len(),
        |i: int|
            Seq::new(
                c2.len(),
                |j: int| cross_upto(c1, c2, part, edges, pos, edges.len() as int, i, j) as u64,
            ),
    )
}

/// The trace that the best alignment of the first `i` clusters of one side with the first
/// `j` of the other gives: matched clusters are joined, the others stand alone.
pub open spec fn merged(
    c1: Seq<Seq<Pos>>,
    c2: Seq<Seq<Pos>>,
    w: Seq<Seq<u64>>,
    i: int,
    j: int,
) -> Seq<Seq<Pos>>
    decreases i + j,
{
    if i < 0 || j < 0 || (i == 0 && j == 0) {
        Seq::empty()
    } else if dp_choice(w, true, i, j) == 0 {
        merged(c1, c2, w, i - 1, j - 1).push(c1[i - 1] + c2[j - 1])
    } else if dp_choice(w, true, i, j) == 1 {
        merged(c1, c2, w, i - 1, j).push(c1[i - 1])
    } else {
        merged(c1, c2, w, i, j - 1).push(c2[j - 1])
    }
}

/// The trace that a refinement step proposes for a partition of the constraints.
pub open spec fn proposal(t: Seq<Seq<Pos>>, part: Seq<bool>, graph: Graph) -> Seq<Seq<Pos>> {
    let c1 = halves(t, part, true);
    let c2 = halves(t, part, false);
    let w = cross_weights(c1, c2, part, graph.sims.edges@, graph.node_pos@);
    merged(c1, c2, w, c1.len() as int, c2.len() as int)
}

pub proof fn lemma_cross_bound(
    c1: Seq<Seq<Pos>>,
    c2: Seq<Seq<Pos>>,
    part: Seq<bool>,
    edges: Seq<Edge>,
    pos: Seq<Pos>,
    n: int,
    i: int,
    j: int,
)
    ensures
        0 <= cross_upto(c1, c2, part, edges, pos, n, i, j) <= weight_sum(edges, n),
    decreases n,
{
    if n > 0 {
        lemma_cross_bound(c1, c2, part, edges, pos, n - 1, i, j);
    }
}

pub proof fn lemma_holder_range(t: Seq<Seq<Pos>>, p: Pos)
    ensures
        -1 <= holder(t, p) < t.len(),
        holder(t, p) >= 0 ==> t[holder(t, p)].contains(p),
    decreases t.len(),
{
    if t.len() > 0 && !t.last().contains(p) {
        lemma_holder_range(t.drop_last(), p);
    }
}

/// The columns of one side of a cluster are columns of the cluster, on that side.
pub proof fn lemma_side_of(c: Seq<Pos>, part: Seq<bool>, side: bool)
    ensures
        forall|a: int|
            0 <= a < side_of(c, part, side).len() ==> c.contains(
                #[trigger] side_of(c, part, side)[a],
            ) && in_part(part, side_of(c, part, side)[a].0) == side,
        distinct_constraints(c) ==> distinct_constraints(side_of(c, part, side)),
        side_of(c, part, side).len() <= c.len(),
    decreases c.len(),
{
    if c.len() > 0 {
        let c0 = c.drop_last();
        lemma_side_of(c0, part, side);
        let s0 = side_of(c0, part, side);
        let s = side_of(c, part, side);
        assert forall|a: int| 0 <= a < s.len() implies c.contains(#[trigger] s[a]) && in_part(
            part,
            s[a].0,
        ) == side by {
            if a < s0.len() {
                assert(c0.contains(s0[a]));
                let x = choose|x: int| 0 <= x < c0.len() && c0[x] == s0[a];
                assert(c[x] == s[a]);
            } else {
                assert(c[c.len() - 1] == s[a]);
            }
        }
        if distinct_constraints(c) {
            assert(distinct_constraints(c0));
            assert forall|a: int, b: int| 0 <= a < b < s.len() implies s[a].0 != s[b].0 by {
                if b < s0.len() {
                } else {
                    assert(c0.contains(s0[a]));
                    let x = choose|x: int| 0 <= x < c0.len() && c0[x] == s0[a];
                    assert(c[x].0 != c[c.len() - 1].0);
                }
            }
        }
    }
}

/// Each cluster that a side keeps lies within a cluster of the trace, and clusters that the
/// side keeps in some order lie within clusters that the trace has in that order.
pub open spec fn embeds(h: Seq<Seq<Pos>>, t: Seq<Seq<Pos>>, src: Seq<int>) -> bool {
    &&& src.len() == h.len()
    &&& forall|x: int| 0 <= x < h.len() ==> 0 <= #[trigger] src[x] < t.len()
    &&& forall|x: int, y: int| 0 <= x < y < h.len() ==> src[x] < src[y]
    &&& forall|x: int, a: int|
        0 <= x < h.len() && 0 <= a < h[x].len() ==> t[src[x]].contains(#[trigger] h[x][a])
}

/// One side of a trace is a trace, of non-empty clusters on that side.
pub proof fn lemma_halves(t: Seq<Seq<Pos>>, part: Seq<bool>, side: bool, counts: Seq<usize>) -> (src:
    Seq<int>)
    ensures
        embeds(halves(t, part, side), t, src),
        all_on_side(halves(t, part, side), part, side),
        halves(t, part, side).len() <= t.len(),
        forall|x: int|
            0 <= x < halves(t, part, side).len() ==> (#[trigger] halves(t, part, side)[x]).len()
                > 0,
        is_trace(t, counts) ==> is_trace(halves(t, part, side), counts),
    decreases t.len(),
{
    let h = halves(t, part, side);
    if t.len() == 0 {
        Seq::empty()
    } else {
        let t0 = t.drop_last();
        let h0 = halves(t0, part, side);
        let src0 = lemma_halves(t0, part, side, counts);
        let last = side_of(t.last(), part, side);
        lemma_side_of(t.last(), part, side);
        let src = if last.len() > 0 {
            src0.push(t.len() - 1)
        } else {
            src0
        };
        assert forall|x: int, a: int| 0 <= x < h.len() && 0 <= a < h[x].len() implies t[src[x]].contains(
            #[trigger] h[x][a],
        ) && in_part(part, h[x][a].0) == side by {
            if x < h0.len() {
                assert(t0[src0[x]].contains(h0[x][a]));
                assert(t0[src0[x]] == t[src0[x]]);
            }
        }
        if is_trace(t, counts) {
            assert(is_trace(t0, counts)) by {
                assert forall|i: int, j: int| 0 <= i < j < t0.len() implies strictly_before(
                    t0[i],
                    t0[j],
                ) by {
                    assert(strictly_before(t[i], t[j]));
                }
                assert forall|i: int| 0 <= i < t0.len() implies distinct_constraints(
                    #[trigger] t0[i],
                ) && cluster_in_range(t0[i], counts) by {
                    assert(t0[i] == t[i]);
                }
            }
            lemma_embedded_trace(h, t, src, counts);
            assert forall|x: int| 0 <= x < h.len() implies distinct_constraints(#[trigger] h[x]) by {
                if x < h0.len() {
                } else {
                    assert(distinct_constraints(t[t.len() - 1]));
                }
            }
        }
        src
    }
}

/// Clusters that lie within the clusters of a trace, in the order of the trace, are ordered
/// and name existing columns.
pub proof fn lemma_embedded_trace(
    h: Seq<Seq<Pos>>,
    t: Seq<Seq<Pos>>,
    src: Seq<int>,
    counts: Seq<usize>,
)
    requires
        embeds(h, t, src),
        is_trace(t, counts),
    ensures
        ordered(h),
        forall|x: int| 0 <= x < h.len() ==> cluster_in_range(#[trigger] h[x], counts),
{
    assert forall|x: int, y: int| 0 <= x < y < h.len() implies strictly_before(h[x], h[y]) by {
        assert(strictly_before(t[src[x]], t[src[y]]));
        assert forall|a: int, b: int|
            0 <= a < h[x].len() && 0 <= b < h[y].len() && h[x][a].0 == h[y][b].0 implies h[x][a].1
            < h[y][b].1 by {
            assert(t[src[x]].contains(h[x][a]));
            assert(t[src[y]].contains(h[y][b]));
            let i = choose|i: int| 0 <= i < t[src[x]].len() && t[src[x]][i] == h[x][a];
            let j = choose|j: int| 0 <= j < t[src[y]].len() && t[src[y]][j] == h[y][b];
            assert(t[src[x]][i].0 == t[src[y]][j].0);
        }
    }
    assert forall|x: int| 0 <= x < h.len() implies cluster_in_range(#[trigger] h[x], counts) by {
        assert(cluster_in_range(t[src[x]], counts));
        assert forall|a: int| 0 <= a < h[x].len() implies h[x][a].0 < counts.len() && h[x][a].1
            < counts[h[x][a].0 as int] by {
            assert(t[src[x]].contains(h[x][a]));
            let i = choose|i: int| 0 <= i < t[src[x]].len() && t[src[x]][i] == h[x][a];
        }
    }
}

/// Every column of the merged trace on the first side comes from one of the first `i`
/// clusters of that side, and every other from one of the first `j` of the second.
pub open spec fn drawn_from(
    l: Seq<Seq<Pos>>,
    c1: Seq<Seq<Pos>>,
    c2: Seq<Seq<Pos>>,
    part: Seq<bool>,
    i: int,
    j: int,
) -> bool {
    forall|x: int, a: int|
        0 <= x < l.len() && 0 <= a < l[x].len() ==> {
            let e = #[trigger] l[x][a];
            if in_part(part, e.0) {
                exists|y: int| 0 <= y < i && #[trigger] c1[y].contains(e)
            } else {
                exists|y: int| 0 <= y < j && #[trigger] c2[y].contains(e)
            }
        }
}

/// Joining the clusters of two sides along an alignment gives a trace.
pub proof fn lemma_merged(
    c1: Seq<Seq<Pos>>,
    c2: Seq<Seq<Pos>>,
    w: Seq<Seq<u64>>,
    part: Seq<bool>,
    counts: Seq<usize>,
    i: int,
    j: int,
)
    requires
        is_trace(c1, counts),
        is_trace(c2, counts),
        all_on_side(c1, part, true),
        all_on_side(c2, part, false),
        0 <= i <= c1.len(),
        0 <= j <= c2.len(),
    ensures
        is_trace(merged(c1, c2, w, i, j), counts),
        drawn_from(merged(c1, c2, w, i, j), c1, c2, part, i, j),
    decreases i + j,
{
    let l = merged(c1, c2, w, i, j);
    if i == 0 && j == 0 {
    } else {
        let pt = dp_choice(w, true, i, j);
        let i0 = if pt == 2 {
            i
        } else {
            i - 1
        };
        let j0 = if pt == 1 {
            j
        } else {
            j - 1
        };
        let l0 = merged(c1, c2, w, i0, j0);
        let ca = c1[i - 1];
        let cb = c2[j - 1];
        lemma_merged(c1, c2, w, part, counts, i0, j0);
        let fresh = if pt == 0 {
            ca + cb
        } else if pt == 1 {
            ca
        } else {
            cb
        };
        assert(l == l0.push(fresh));
        // where the fresh cluster's columns come from
        assert forall|a: int| 0 <= a < fresh.len() implies (if in_part(
            part,
            (#[trigger] fresh[a]).0,
        ) {
            i0 == i - 1 && ca.contains(fresh[a])
        } else {
            j0 == j - 1 && cb.contains(fresh[a])
        }) by {
            if pt == 0 {
                if a < ca.len() {
                    assert(fresh[a] == ca[a]);
                } else {
                    assert(fresh[a] == cb[a - ca.len()]);
                }
            } else if pt == 1 {
                assert(fresh[a] == ca[a]);
            } else {
                assert(fresh[a] == cb[a]);
            }
        }
        assert(distinct_constraints(fresh)) by {
            assert forall|a: int, b: int| 0 <= a < b < fresh.len() implies fresh[a].0
                != fresh[b].0 by {
                let ea = fresh[a];
                let eb = fresh[b];
                if in_part(part, ea.0) == in_part(part, eb.0) {
                    if in_part(part, ea.0) {
                        assert(distinct_constraints(ca));
                        if pt == 0 {
                            assert(a < ca.len() && b < ca.len()) by {
                                if a >= ca.len() {
                                    assert(fresh[a] == cb[a - ca.len()]);
                                }
                                if b >= ca.len() {
                                    assert(fresh[b] == cb[b - ca.len()]);
                                }
                            }
                        }
                    } else {
                        assert(distinct_constraints(cb));
                        if pt == 0 {
                            assert(a >= ca.len() && b >= ca.len()) by {
                                if a < ca.len() {
                                    assert(fresh[a] == ca[a]);
                                }
                                if b < ca.len() {
                                    assert(fresh[b] == ca[b]);
                                }
                            }
                            assert(fresh[a] == cb[a - ca.len()]);
                            assert(fresh[b] == cb[b - ca.len()]);
                        }
                    }
                }
            }
        }
        assert(cluster_in_range(fresh, counts)) by {
            assert forall|a: int| 0 <= a < fresh.len() implies fresh[a].0 < counts.len()
                && fresh[a].1 < counts[fresh[a].0 as int] by {
                if in_part(part, fresh[a].0) {
                    assert(cluster_in_range(ca, counts));
                    let x = choose|x: int| 0 <= x < ca.len() && ca[x] == fresh[a];
                } else {
                    assert(cluster_in_range(cb, counts));
                    let x = choose|x: int| 0 <= x < cb.len() && cb[x] == fresh[a];
                }
            }
        }
        assert forall|x: int, y: int| 0 <= x < y < l.len() implies strictly_before(l[x], l[y]) by {
            if y < l0.len() {
                assert(strictly_before(l0[x], l0[y]));
            } else {
                assert forall|a: int, b: int|
                    0 <= a < l[x].len() && 0 <= b < fresh.len() && l[x][a].0
                        == fresh[b].0 implies l[x][a].1 < fresh[b].1 by {
                    let e = l0[x][a];
                    let f = fresh[b];
                    if in_part(part, f.0) {
                        let z = choose|z: int| 0 <= z < i0 && #[trigger] c1[z].contains(e);
                        assert(strictly_before(c1[z], ca));
                        let p = choose|p: int| 0 <= p < c1[z].len() && c1[z][p] == e;
                        let q = choose|q: int| 0 <= q < ca.len() && ca[q] == f;
                        assert(c1[z][p].0 == ca[q].0);
                    } else {
                        let z = choose|z: int| 0 <= z < j0 && #[trigger] c2[z].contains(e);
                        assert(strictly_before(c2[z], cb));
                        let p = choose|p: int| 0 <= p < c2[z].len() && c2[z][p] == e;
                        let q = choose|q: int| 0 <= q < cb.len() && cb[q] == f;
                        assert(c2[z][p].0 == cb[q].0);
                    }
                }
            }
        }
        assert forall|x: int| 0 <= x < l.len() implies distinct_constraints(#[trigger] l[x])
            && cluster_in_range(l[x], counts) by {
            if x < l0.len() {
                assert(l[x] == l0[x]);
            }
        }
        assert forall|x: int, a: int| 0 <= x < l.len() && 0 <= a < l[x].len() implies {
            let e = #[trigger] l[x][a];
            if in_part(part, e.0) {
                exists|y: int| 0 <= y < i && #[trigger] c1[y].contains(e)
            } else {
                exists|y: int| 0 <= y < j && #[trigger] c2[y].contains(e)
            }
        } by {
            let e = l[x][a];
            if x < l0.len() {
                assert(l[x][a] == l0[x][a]);
                if in_part(part, e.0) {
                    let z = choose|z: int| 0 <= z < i0 && #[trigger] c1[z].contains(e);
                    assert(0 <= z < i && c1[z].contains(e));
                } else {
                    let z = choose|z: int| 0 <= z < j0 && #[trigger] c2[z].contains(e);
                    assert(0 <= z < j && c2[z].contains(e));
                }
            } else {
                assert(e == fresh[a]);
                if in_part(part, e.0) {
                    assert(ca.contains(e));
                } else {
                    assert(cb.contains(e));
                }
            }
        }
    }
}

/// A refinement step proposes a trace whenever it is given one.
pub proof fn lemma_proposal_is_trace(
    t: Seq<Seq<Pos>>,
    part: Seq<bool>,
    graph: Graph,
    counts: Seq<usize>,
)
    requires
        is_trace(t, counts),
    ensures
        is_trace(proposal(t, part, graph), counts),
{
    let c1 = halves(t, part, true);
    let c2 = halves(t, part, false);
    let w = cross_weights(c1, c2, part, graph.sims.edges@, graph.node_pos@);
    lemma_halves(t, part, true, counts);
    lemma_halves(t, part, false, counts);
    lemma_merged(c1, c2, w, part, counts, c1.len() as int, c2.len() as int);
}


/// Appends a copy of the columns of `src`.
pub fn extend_copy(buf: &mut Vec<(u32, u32)>, src: &Vec<(u32, u32)>)
    ensures
        final(buf)@ == old(buf)@ + src@,
{
    let ghost before = buf@;
    let mut i: usize = 0;
    while i < src.len()
        invariant
            i <= src@.len(),
            buf@ == before + src@.take(i as int),
        decreases src.len() - i,
    {
        buf.push(src[i]);
        i += 1;
        assert(buf@ =~= before + src@.take(i as int));
    }
    assert(src@.take(src@.len() as int) =~= src@);
    assert(before + src@.take(0) =~= before);
}

/// A copy of the clusters.
pub fn copy_clusters(v: &Vec<Vec<(u32, u32)>>) -> (out: Vec<Vec<(u32, u32)>>)
    ensures
        rows_of(out@) == rows_of(v@),
{
    let mut out: Vec<Vec<(u32, u32)>> = Vec::new();
    let mut i: usize = 0;
    assert(rows_of(out@) =~= rows_of(v@).take(0));
    while i < v.len()
        invariant
            i <= v@.len(),
            rows_of(out@) == rows_of(v@).take(i as int),
        decreases v.len() - i,
    {
        let mut c: Vec<(u32, u32)> = Vec::new();
        extend_copy(&mut c, &v[i]);
        assert(c@ =~= v@[i as int]@);
        let ghost o0 = rows_of(out@);
        out.push(c);
        assert(rows_of(out@) =~= o0.push(c@));
        i += 1;
        assert(rows_of(out@) =~= rows_of(v@).take(i as int));
    }
    assert(rows_of(v@).take(v@.len() as int) =~= rows_of(v@));
    out
}

/// What the clusters leave on one side of the partition.
fn split(clusters: &Vec<Vec<(u32, u32)>>, partition: &FixedBitSet, side: bool) -> (out: Vec<
    Vec<(u32, u32)>,
>)
    ensures
        rows_of(out@) == halves(rows_of(clusters@), bits_of(*partition), side),
{
    let ghost t = rows_of(clusters@);
    let ghost part = bits_of(*partition);
    let mut out: Vec<Vec<(u32, u32)>> = Vec::new();
    let mut i: usize = 0;
    assert(t.take(0) =~= Seq::<Seq<Pos>>::empty());
    assert(rows_of(out@) =~= halves(t.take(0), part, side));
    while i < clusters.len()
        invariant
            i <= clusters@.len(),
            t == rows_of(clusters@),
            part == bits_of(*partition),
            rows_of(out@) == halves(t.take(i as int), part, side),
        decreases clusters.len() - i,
    {
        let tr = &clusters[i];
        let mut buf: Vec<(u32, u32)> = Vec::new();
        let mut a: usize = 0;
        assert(tr@.take(0) =~= Seq::<Pos>::empty());
        assert(buf@ =~= side_of(tr@.take(0), part, side));
        while a < tr.len()
            invariant
                a <= tr@.len(),
                part == bits_of(*partition),
                buf@ == side_of(tr@.take(a as int), part, side),
            decreases tr.len() - a,
        {
            let e = tr[a];
            let on = bitset_contains(partition, e.0 as usize);
            proof {
                assert(tr@.take(a as int + 1).drop_last() =~= tr@.take(a as int));
                assert(tr@.take(a as int + 1).last() == e);
            }
            if on == side {
                buf.push(e);
            }
            a += 1;
        }
        proof {
            assert(tr@.take(tr@.len() as int) =~= tr@);
            assert(t.take(i as int + 1).drop_last() =~= t.take(i as int));
            assert(t.take(i as int + 1).last() == tr@);
        }
        let ghost o0 = rows_of(out@);
        if buf.len() > 0 {
            out.push(buf);
            assert(rows_of(out@) =~= o0.push(buf@));
        }
        i += 1;
    }
    assert(t.take(clusters@.len() as int) =~= t);
    out
}

/// The table of weights between the clusters of the two sides.
fn cross_table(
    c1: &Vec<Vec<(u32, u32)>>,
    c2: &Vec<Vec<(u32, u32)>>,
    partition: &FixedBitSet,
    graph: &Graph,
) -> (w: Grid)
    requires
        graph.sims.wf(),
        forall|i: int|
            0 <= i < graph.sims.edges@.len() ==> (#[trigger] graph.sims.edges@[i]).v
                < graph.node_pos@.len(),
        dp_fits(c1@.len() as int, c2@.len() as int),
    ensures
        cells_of(w) == cross_weights(
            rows_of(c1@),
            rows_of(c2@),
            bits_of(*partition),
            graph.sims.edges@,
            graph.node_pos@,
        ),
        is_weights(cells_of(w), c1@.len() as int, c2@.len() as int),
{
    let n1 = c1.len();
    let n2 = c2.len();
    let ghost r1 = rows_of(c1@);
    let ghost r2 = rows_of(c2@);
    let ghost part = bits_of(*partition);
    let ghost edges = graph.sims.edges@;
    let ghost pos = graph.node_pos@;
    assert(n1 * n2 * 8 <= (n1 + 1) * (n2 + 1) * 8) by (nonlinear_arith)
        requires
            n1 >= 0,
            n2 >= 0,
    ;
    let map1 = index_clusters(c1);
    let map2 = index_clusters(c2);
    let mut w = grid_zeros(n1, n2);
    let n = graph.sims.edges.len();
    let mut k: usize = 0;
    while k < n
        invariant
            k <= n,
            n == edges.len(),
            n1 == r1.len(),
            n2 == r2.len(),
            r1 == rows_of(c1@),
            r2 == rows_of(c2@),
            part == bits_of(*partition),
            edges == graph.sims.edges@,
            pos == graph.node_pos@,
            graph.sims.wf(),
            forall|i: int| 0 <= i < edges.len() ==> (#[trigger] edges[i]).v < pos.len(),
            has_shape(cells_of(w), n1 as int, n2 as int),
            forall|i: int, j: int|
                0 <= i < n1 && 0 <= j < n2 ==> #[trigger] cells_of(w)[i][j] == cross_upto(
                    r1,
                    r2,
                    part,
                    edges,
                    pos,
                    k as int,
                    i,
                    j,
                ),
            forall|p: Pos| holder(r1, p) >= 0 <==> entries_of(map1).contains_key(#[trigger] pos_key(p)),
            forall|p: Pos|
                holder(r1, p) >= 0 ==> entries_of(map1)[#[trigger] pos_key(p)] == holder(r1, p),
            forall|p: Pos| holder(r2, p) >= 0 <==> entries_of(map2).contains_key(#[trigger] pos_key(p)),
            forall|p: Pos|
                holder(r2, p) >= 0 ==> entries_of(map2)[#[trigger] pos_key(p)] == holder(r2, p),
        decreases n - k,
    {
        let e = graph.sims.edges[k];
        assert(e == edges[k as int]);
        assert(e.u < e.v);
        let p1 = graph.node_pos[e.u];
        let p2 = graph.node_pos[e.v];
        let s1 = bitset_contains(partition, p1.0 as usize);
        let s2 = bitset_contains(partition, p2.0 as usize);
        let ghost w0 = cells_of(w);
        let ghost cell = cross_cell(r1, r2, part, p1, p2);
        let mut fed = false;
        if s1 != s2 {
            let a = if s1 {
                p1
            } else {
                p2
            };
            let b = if s1 {
                p2
            } else {
                p1
            };
            proof {
                lemma_holder_range(r1, a);
                lemma_holder_range(r2, b);
            }
            match (entries_get(&map1, key_of(a)), entries_get(&map2, key_of(b))) {
                (Some(i1), Some(i2)) => {
                    proof {
                        assert(holder(r1, a) == i1 && holder(r2, b) == i2);
                        lemma_cross_bound(r1, r2, part, edges, pos, k as int + 1, i1 as int, i2 as int);
                        lemma_weight_sum_bounds(edges, k as int, n as int);
                        if k + 1 < n {
                            lemma_weight_sum_bounds(edges, k as int + 1, n as int);
                        }
                    }
                    let cur = grid_get(&w, i1 as usize, i2 as usize);
                    grid_set(&mut w, i1 as usize, i2 as usize, cur + e.w);
                    fed = true;
                    assert(cell == Some((i1 as int, i2 as int)));
                },
                _ => {
                    assert(cell.is_none());
                },
            }
        } else {
            assert(cell.is_none());
        }
        proof {
            assert forall|i: int, j: int| 0 <= i < n1 && 0 <= j < n2 implies #[trigger] cells_of(
                w,
            )[i][j] == cross_upto(r1, r2, part, edges, pos, k as int + 1, i, j) by {
                if fed && cell == Some((i, j)) {
                } else {
                    assert(cells_of(w)[i][j] == w0[i][j]);
                }
            }
        }
        k += 1;
    }
    proof {
        let target = cross_weights(r1, r2, part, edges, pos);
        assert forall|i: int| 0 <= i < n1 implies cells_of(w)[i] == target[i] by {
            assert forall|j: int| 0 <= j < n2 implies cells_of(w)[i][j] == target[i][j] by {
                lemma_cross_bound(r1, r2, part, edges, pos, n as int, i, j);
            }
            assert(cells_of(w)[i] =~= target[i]);
        }
        assert(cells_of(w) =~= target);
        assert forall|i: int, j: int| 0 <= i < n1 && 0 <= j < n2 implies #[trigger] cells_of(
            w,
        )[i][j] <= WEIGHT_CAP by {
            lemma_cross_bound(r1, r2, part, edges, pos, n as int, i, j);
        }
    }
    w
}

/// The trace that the alignment of the two sides gives.
fn join(
    c1: &Vec<Vec<(u32, u32)>>,
    c2: &Vec<Vec<(u32, u32)>>,
    back: &Grid,
    Ghost(w): Ghost<Seq<Seq<u64>>>,
) -> (out: Vec<Vec<(u32, u32)>>)
    requires
        has_shape(cells_of(*back), c1@.len() as int + 1, c2@.len() as int + 1),
        forall|i: int, j: int|
            0 <= i <= c1@.len() && 0 <= j <= c2@.len() ==> #[trigger] cells_of(*back)[i][j]
                == dp_choice(w, true, i, j),
    ensures
        rows_of(out@) == merged(
            rows_of(c1@),
            rows_of(c2@),
            w,
            c1@.len() as int,
            c2@.len() as int,
        ),
{
    let n = c1.len();
    let m = c2.len();
    let ghost r1 = rows_of(c1@);
    let ghost r2 = rows_of(c2@);
    let mut matches: Vec<Vec<(u32, u32)>> = Vec::new();
    let mut i: usize = n;
    let mut j: usize = m;
    assert(merged(r1, r2, w, n as int, m as int) + rows_of(matches@).reverse() =~= merged(
        r1,
        r2,
        w,
        n as int,
        m as int,
    ));
    while !(i == 0 && j == 0)
        invariant
            i <= n,
            j <= m,
            n == c1@.len(),
            m == c2@.len(),
            r1 == rows_of(c1@),
            r2 == rows_of(c2@),
            has_shape(cells_of(*back), n + 1, m + 1),
            forall|a: int, b: int|
                0 <= a <= n && 0 <= b <= m ==> #[trigger] cells_of(*back)[a][b] == dp_choice(
                    w,
                    true,
                    a,
                    b,
                ),
            merged(r1, r2, w, n as int, m as int) == merged(r1, r2, w, i as int, j as int)
                + rows_of(matches@).reverse(),
        decreases i + j,
    {
        let pt = grid_get(back, i, j);
        let ghost before = rows_of(matches@);
        let ghost i0 = i as int;
        let ghost j0 = j as int;
        let mut buf: Vec<(u32, u32)> = Vec::new();
        if pt == DIAGONAL {
            i -= 1;
            j -= 1;
            extend_copy(&mut buf, &c1[i]);
            extend_copy(&mut buf, &c2[j]);
            assert(buf@ =~= r1[i as int] + r2[j as int]);
        } else if pt == UP {
            i -= 1;
            extend_copy(&mut buf, &c1[i]);
            assert(buf@ =~= r1[i as int]);
        } else {
            j -= 1;
            extend_copy(&mut buf, &c2[j]);
            assert(buf@ =~= r2[j as int]);
        }
        let ghost c = buf@;
        matches.push(buf);
        proof {
            assert(rows_of(matches@) =~= before.push(c));
            assert(before.push(c).reverse() =~= seq![c] + before.reverse());
            assert(merged(r1, r2, w, i0, j0) == merged(r1, r2, w, i as int, j as int).push(c));
            assert(merged(r1, r2, w, i as int, j as int).push(c) + before.reverse() =~= merged(
                r1,
                r2,
                w,
                i as int,
                j as int,
            ) + (seq![c] + before.reverse()));
        }
    }
    let out = reversed(matches);
    proof {
        assert(rows_of(matches@).reverse().reverse() =~= rows_of(matches@));
        assert(merged(r1, r2, w, 0, 0) =~= Seq::<Seq<Pos>>::empty());
        assert(rows_of(out@) =~= merged(r1, r2, w, n as int, m as int));
    }
    out
}

/// What a refinement step leaves: the proposal where the tables for it can be made and it
/// scores higher, else the trace as it was.
pub open spec fn step_result(t: Seq<Seq<Pos>>, part: Seq<bool>, graph: Graph) -> Seq<Seq<Pos>> {
    if dp_fits(halves(t, part, true).len() as int, halves(t, part, false).len() as int)
        && graph.score_of(proposal(t, part, graph)) > graph.score_of(t) {
        proposal(t, part, graph)
    } else {
        t
    }
}

/// One refinement step: the clusters are split along the partition, the two sides are
/// aligned anew by the weights between them, and the result replaces the trace where it
/// scores higher.
pub fn iterative_refinement_step(
    state: &AlnState,
    graph: &Graph,
    res: &mut ClusteringResult,
    partition: &FixedBitSet,
)
    requires
        graph.sims.wf(),
        forall|i: int|
            0 <= i < graph.sims.edges@.len() ==> (#[trigger] graph.sims.edges@[i]).v
                < graph.node_pos@.len(),
    ensures
        final(res)@ == step_result(old(res)@, bits_of(*partition), *graph),
        final(res).mwt_am == old(res).mwt_am,
        graph.score_of(final(res)@) >= graph.score_of(old(res)@),
        is_trace(old(res)@, state.column_counts@) ==> is_trace(
            final(res)@,
            state.column_counts@,
        ),
{
    let ghost t = res@;
    let ghost part = bits_of(*partition);
    proof {
        if is_trace(t, state.column_counts@) {
            lemma_proposal_is_trace(t, part, *graph, state.column_counts@);
        }
    }
    let c1 = split(&res.clusters, partition, true);
    let c2 = split(&res.clusters, partition, false);
    if !check_dp_fits(c1.len(), c2.len()) {
        return ;
    }
    let w = cross_table(&c1, &c2, partition, graph);
    let (_s, back) = fill_tables(&w, c1.len(), c2.len(), true);
    let matches = join(&c1, &c2, &back, Ghost(cells_of(w)));
    let candidate = ClusteringResult { clusters: matches, mwt_am: res.mwt_am };
    assert(candidate@ == proposal(t, part, *graph));
    let before = res.mwt_am_score(state, graph);
    let after = candidate.mwt_am_score(state, graph);
    if after > before {
        res.clusters = candidate.clusters;
    }
}


/// The number of workers that refine one of the two traces.
pub const WORKERS: usize = 8;

/// The number of epochs of a worker.
pub const EPOCHS: usize = 100;

/// The number of random partitions that a worker tries in an epoch.
pub const RANDOM_STEPS: usize = 50;

/// The number of epochs without gain after which a worker goes through the constraints one
/// by one.
pub const PATIENCE: i32 = 3;

/// What the graph must be for a trace to be scored on it.
pub open spec fn scorable(graph: Graph) -> bool {
    graph.sims.wf() && forall|i: int|
        0 <= i < graph.sims.edges@.len() ==> (#[trigger] graph.sims.edges@[i]).v
            < graph.node_pos@.len()
}

/// The number of constraints on the chosen side of a partition of `k` constraints.
pub open spec fn part_size(part: Seq<bool>, k: int) -> int {
    k - unmarked(part, k)
}

proof fn lemma_unmarked_clear(k: int, n: int)
    requires
        0 <= n <= k,
    ensures
        unmarked(Seq::new(k as nat, |i: int| false), n) == n,
    decreases n,
{
    if n > 0 {
        lemma_unmarked_clear(k, n - 1);
    }
}

/// Puts a random choice of the `k` constraints on the chosen side of the partition: at least
/// one of them, and not all.
pub fn random_partition(rng: &mut SmallRng, k: usize, bitset: &mut FixedBitSet)
    requires
        k >= 2,
        bits_of(*old(bitset)) == Seq::new(k as nat, |i: int| false),
    ensures
        bits_of(*final(bitset)).len() == k,
        1 <= part_size(bits_of(*final(bitset)), k as int) <= k - 1,
{
    let partition_size = rng_in_range(rng, 1, k);
    let ix = rng_sample(rng, k, partition_size);
    let ghost clear = bits_of(*bitset);
    proof {
        lemma_unmarked_clear(k as int, k as int);
    }
    let mut i: usize = 0;
    while i < ix.len()
        invariant
            i <= ix@.len(),
            ix@.len() == partition_size,
            ix@.no_duplicates(),
            forall|j: int| 0 <= j < ix@.len() ==> ix@[j] < k,
            bits_of(*bitset).len() == k,
            unmarked(bits_of(*bitset), k as int) == k - i,
            forall|x: int|
                0 <= x < k ==> (bits_of(*bitset)[x] <==> exists|j: int|
                    0 <= j < i && #[trigger] ix@[j] == x),
        decreases ix.len() - i,
    {
        let x = ix[i];
        let ghost b0 = bits_of(*bitset);
        proof {
            if b0[x as int] {
                let j = choose|j: int| 0 <= j < i && #[trigger] ix@[j] == x as int;
                assert(ix@[j] == ix@[i as int]);
            }
            crate::naive_upgma::lemma_unmarked_set(b0, x as int, k as int);
        }
        bitset_set(bitset, x, true);
        proof {
            assert forall|y: int| 0 <= y < k implies (bits_of(*bitset)[y] <==> exists|j: int|
                0 <= j < i + 1 && #[trigger] ix@[j] == y) by {
                if y == x {
                    assert(ix@[i as int] == y);
                } else {
                    if b0[y] {
                        let j = choose|j: int| 0 <= j < i && #[trigger] ix@[j] == y;
                        assert(0 <= j < i + 1 && ix@[j] == y);
                    }
                    if exists|j: int| 0 <= j < i + 1 && #[trigger] ix@[j] == y {
                        let j = choose|j: int| 0 <= j < i + 1 && #[trigger] ix@[j] == y;
                        assert(j < i);
                    }
                }
            }
        }
        i += 1;
    }
}

/// Puts the column with the columns of the cluster, by rising constraint, and tells where.
fn insert_by_constraint(v: &mut Vec<(u32, u32)>, e: (u32, u32)) -> (at: usize)
    requires
        forall|i: int, j: int| 0 <= i < j < old(v)@.len() ==> old(v)@[i].0 <= old(v)@[j].0,
    ensures
        at <= old(v)@.len(),
        final(v)@ == old(v)@.insert(at as int, e),
        forall|i: int, j: int| 0 <= i < j < final(v)@.len() ==> final(v)@[i].0 <= final(v)@[j].0,
{
    let n = v.len();
    let mut i: usize = 0;
    while i < n && v[i].0 <= e.0
        invariant
            i <= n,
            n == v@.len(),
            v@ == old(v)@,
            forall|k: int| 0 <= k < i ==> v@[k].0 <= e.0,
        decreases n - i,
    {
        i += 1;
    }
    let ghost before = v@;
    v.insert(i, e);
    proof {
        assert forall|a: int, b: int| 0 <= a < b < v@.len() implies v@[a].0 <= v@[b].0 by {
            if a < i && b > i {
                if a < b - 1 {
                    assert(before[a].0 <= before[b - 1].0);
                }
            }
        }
    }
    i
}

/// The columns of the cluster, by rising constraint.
pub fn sorted_cluster(c: &Vec<(u32, u32)>) -> (out: Vec<(u32, u32)>)
    ensures
        out@.to_multiset() == c@.to_multiset(),
        forall|p: Pos| #[trigger] out@.contains(p) <==> c@.contains(p),
        forall|i: int, j: int| 0 <= i < j < out@.len() ==> out@[i].0 <= out@[j].0,
        distinct_constraints(c@) ==> sorted_by_constraint(out@),
{
    let mut out: Vec<(u32, u32)> = Vec::new();
    let ghost mut src: Seq<int> = Seq::empty();
    let mut a: usize = 0;
    proof {
        assert(c@.take(0) =~= Seq::<Pos>::empty());
    }
    while a < c.len()
        invariant
            a <= c@.len(),
            out@.len() == a,
            src.len() == a,
            out@.to_multiset() == c@.take(a as int).to_multiset(),
            forall|i: int, j: int| 0 <= i < j < out@.len() ==> out@[i].0 <= out@[j].0,
            forall|i: int| 0 <= i < a ==> 0 <= #[trigger] src[i] < a && out@[i] == c@[src[i]],
            forall|i: int, j: int| 0 <= i < j < a ==> src[i] != src[j],
        decreases c.len() - a,
    {
        let e = c[a];
        let ghost o0 = out@;
        let ghost s0 = src;
        let at = insert_by_constraint(&mut out, e);
        proof {
            src = s0.insert(at as int, a as int);
            vstd::seq_lib::to_multiset_insert(o0, at as int, e);
            assert(c@.take(a as int + 1) =~= c@.take(a as int).push(e));
            vstd::seq_lib::to_multiset_build(c@.take(a as int), e);
            assert forall|i: int| 0 <= i < a + 1 implies 0 <= #[trigger] src[i] < a + 1 && out@[i]
                == c@[src[i]] by {
                if i < at {
                    assert(src[i] == s0[i]);
                } else if i > at {
                    assert(src[i] == s0[i - 1]);
                }
            }
            assert forall|i: int, j: int| 0 <= i < j < a + 1 implies src[i] != src[j] by {
                let si = if i < at {
                    s0[i]
                } else if i == at {
                    a as int
                } else {
                    s0[i - 1]
                };
                let sj = if j < at {
                    s0[j]
                } else if j == at {
                    a as int
                } else {
                    s0[j - 1]
                };
                assert(src[i] == si && src[j] == sj);
            }
        }
        a += 1;
    }
    proof {
        assert(c@.take(c@.len() as int) =~= c@);
        out@.to_multiset_ensures();
        c@.to_multiset_ensures();
        assert forall|p: Pos| #[trigger] out@.contains(p) <==> c@.contains(p) by {
            assert(out@.contains(p) <==> out@.to_multiset().count(p) > 0);
            assert(c@.contains(p) <==> c@.to_multiset().count(p) > 0);
        }
        if distinct_constraints(c@) {
            assert forall|i: int, j: int| 0 <= i < j < out@.len() implies out@[i].0 < out@[j].0 by {
                assert(src[i] != src[j]);
                if src[i] < src[j] {
                    assert(c@[src[i]].0 != c@[src[j]].0);
                } else {
                    assert(c@[src[j]].0 != c@[src[i]].0);
                }
            }
        }
    }
    out
}

/// Every cluster with its columns by rising constraint.
pub fn sort_clusters(clusters: &Vec<Vec<(u32, u32)>>) -> (out: Vec<Vec<(u32, u32)>>)
    ensures
        out@.len() == clusters@.len(),
        forall|x: int|
            0 <= x < out@.len() ==> (#[trigger] out@[x])@.to_multiset()
                == clusters@[x]@.to_multiset(),
        forall|x: int, p: Pos|
            0 <= x < out@.len() ==> (#[trigger] out@[x]@.contains(p) <==> clusters@[x]@.contains(p)),
        forall|x: int|
            0 <= x < out@.len() && distinct_constraints(clusters@[x]@) ==> sorted_by_constraint(
                (#[trigger] out@[x])@,
            ),
        forall|x: int| 0 <= x < out@.len() ==> rising((#[trigger] out@[x])@),
{
    let mut out: Vec<Vec<(u32, u32)>> = Vec::new();
    let mut x: usize = 0;
    while x < clusters.len()
        invariant
            x <= clusters@.len(),
            out@.len() == x,
            forall|y: int|
                0 <= y < x ==> (#[trigger] out@[y])@.to_multiset() == clusters@[y]@.to_multiset(),
            forall|y: int, p: Pos|
                0 <= y < x ==> (#[trigger] out@[y]@.contains(p) <==> clusters@[y]@.contains(p)),
            forall|y: int|
                0 <= y < x && distinct_constraints(clusters@[y]@) ==> sorted_by_constraint(
                    (#[trigger] out@[y])@,
                ),
            forall|y: int| 0 <= y < x ==> rising((#[trigger] out@[y])@),
        decreases clusters.len() - x,
    {
        let c = sorted_cluster(&clusters[x]);
        out.push(c);
        x += 1;
    }
    out
}

/// Listing the columns of each cluster of a trace in another order leaves a trace; where
/// each list rises by constraint, a sorted trace.
pub proof fn lemma_sorted_trace(t: Seq<Seq<Pos>>, u: Seq<Seq<Pos>>, counts: Seq<usize>)
    requires
        is_trace(t, counts),
        u.len() == t.len(),
        forall|x: int, p: Pos| 0 <= x < t.len() ==> (#[trigger] u[x].contains(p) <==> t[x].contains(p)),
        forall|x: int| 0 <= x < t.len() ==> sorted_by_constraint(#[trigger] u[x]),
    ensures
        is_sorted_trace(u, counts),
{
    assert forall|x: int, y: int| 0 <= x < y < u.len() implies strictly_before(u[x], u[y]) by {
        assert(strictly_before(t[x], t[y]));
        assert forall|a: int, b: int|
            0 <= a < u[x].len() && 0 <= b < u[y].len() && u[x][a].0 == u[y][b].0 implies u[x][a].1
            < u[y][b].1 by {
            assert(u[x].contains(u[x][a]));
            assert(u[y].contains(u[y][b]));
            assert(t[x].contains(u[x][a]));
            assert(t[y].contains(u[y][b]));
            let i = choose|i: int| 0 <= i < t[x].len() && t[x][i] == u[x][a];
            let j = choose|j: int| 0 <= j < t[y].len() && t[y][j] == u[y][b];
            assert(t[x][i].0 == t[y][j].0);
        }
    }
    assert forall|x: int| 0 <= x < u.len() implies distinct_constraints(#[trigger] u[x])
        && cluster_in_range(u[x], counts) by {
        assert(sorted_by_constraint(u[x]));
        assert(cluster_in_range(t[x], counts));
        assert forall|a: int| 0 <= a < u[x].len() implies u[x][a].0 < counts.len() && u[x][a].1
            < counts[u[x][a].0 as int] by {
            assert(u[x].contains(u[x][a]));
            assert(t[x].contains(u[x][a]));
            let i = choose|i: int| 0 <= i < t[x].len() && t[x][i] == u[x][a];
        }
    }
}


proof fn lemma_holder_same(t: Seq<Seq<Pos>>, u: Seq<Seq<Pos>>, p: Pos)
    requires
        u.len() == t.len(),
        forall|x: int, q: Pos| 0 <= x < t.len() ==> (#[trigger] u[x].contains(q) <==> t[x].contains(q)),
    ensures
        holder(u, p) == holder(t, p),
    decreases t.len(),
{
    if t.len() > 0 {
        assert(u.last().contains(p) <==> t.last().contains(p));
        lemma_holder_same(t.drop_last(), u.drop_last(), p);
    }
}

/// The score of a trace does not depend on the order of the columns within its clusters.
pub proof fn lemma_score_same(t: Seq<Seq<Pos>>, u: Seq<Seq<Pos>>, edges: Seq<Edge>, pos: Seq<Pos>, n: int)
    requires
        u.len() == t.len(),
        forall|x: int, q: Pos| 0 <= x < t.len() ==> (#[trigger] u[x].contains(q) <==> t[x].contains(q)),
    ensures
        score_upto(u, edges, pos, n) == score_upto(t, edges, pos, n),
    decreases n,
{
    if n > 0 {
        lemma_score_same(t, u, edges, pos, n - 1);
        lemma_holder_same(t, u, pos[edges[n - 1].u as int]);
        lemma_holder_same(t, u, pos[edges[n - 1].v as int]);
    }
}

/// The partition of `k` constraints that has constraint `c` alone on the chosen side.
pub open spec fn single(k: int, c: int) -> Seq<bool> {
    Seq::new(k as nat, |i: int| i == c)
}

/// The order names each of the `k` constraints once.
pub open spec fn is_order(order: Seq<usize>, k: int) -> bool {
    &&& order.len() == k
    &&& forall|j: int| 0 <= j < order.len() ==> #[trigger] order[j] < k
    &&& forall|c: usize| c < k ==> #[trigger] order.contains(c)
}

/// The trace after a refinement step for each of the first `n` constraints of the order,
/// each set alone against the others.
pub open spec fn swept(t: Seq<Seq<Pos>>, order: Seq<usize>, k: int, graph: Graph, n: int) -> Seq<
    Seq<Pos>,
>
    decreases n,
{
    if n <= 0 {
        t
    } else {
        step_result(swept(t, order, k, graph, n - 1), single(k, order[n - 1] as int), graph)
    }
}

/// The trace after the first `n` sweeps, each through all constraints in its order.
pub open spec fn swept_all(
    t: Seq<Seq<Pos>>,
    orders: Seq<Seq<usize>>,
    k: int,
    graph: Graph,
    n: int,
) -> Seq<Seq<Pos>>
    decreases n,
{
    if n <= 0 {
        t
    } else {
        swept(swept_all(t, orders, k, graph, n - 1), orders[n - 1], k, graph, k)
    }
}

/// The trace after a refinement step for each of the first `n` partitions.
pub open spec fn stepped(t: Seq<Seq<Pos>>, parts: Seq<Seq<bool>>, graph: Graph, n: int) -> Seq<
    Seq<Pos>,
>
    decreases n,
{
    if n <= 0 {
        t
    } else {
        step_result(stepped(t, parts, graph, n - 1), parts[n - 1], graph)
    }
}

/// Whether a worker with this count of epochs without gain sets the constraints aside one
/// by one: it has just begun, or has gone `PATIENCE` epochs without gain.
pub open spec fn sweeping(frustration: int) -> bool {
    frustration == PATIENCE || frustration == -1
}

/// The orders of the sweeps of one epoch: one sweep after `PATIENCE` epochs without gain,
/// two where the worker has just begun.
pub open spec fn orders_fit(orders: Seq<Seq<usize>>, k: int, frustration: int) -> bool {
    &&& orders.len() == (if frustration == PATIENCE {
        1int
    } else {
        2int
    })
    &&& forall|s: int| 0 <= s < orders.len() ==> is_order(#[trigger] orders[s], k)
}

/// The random partitions of one epoch: `RANDOM_STEPS` of them, each with one constraint at
/// least on the chosen side, and not all.
pub open spec fn parts_fit(parts: Seq<Seq<bool>>, k: int) -> bool {
    &&& parts.len() == RANDOM_STEPS
    &&& forall|i: int|
        0 <= i < parts.len() ==> (#[trigger] parts[i]).len() == k && 1 <= part_size(parts[i], k) <= k
            - 1
}

/// What one epoch can make of the trace `t0`: with fewer than two constraints the trace as
/// it is; else the trace after the sweeps in some orders, or after refinement steps on some
/// partitions.
pub open spec fn epoch_result(
    t0: Seq<Seq<Pos>>,
    t1: Seq<Seq<Pos>>,
    k: int,
    frustration: int,
    graph: Graph,
) -> bool {
    if k < 2 {
        t1 == t0
    } else if sweeping(frustration) {
        exists|orders: Seq<Seq<usize>>|
            #[trigger] orders_fit(orders, k, frustration) && t1 == swept_all(
                t0,
                orders,
                k,
                graph,
                orders.len() as int,
            )
    } else {
        exists|parts: Seq<Seq<bool>>|
            #[trigger] parts_fit(parts, k) && t1 == stepped(t0, parts, graph, parts.len() as int)
    }
}

proof fn lemma_swept_all_same(
    t: Seq<Seq<Pos>>,
    a: Seq<Seq<usize>>,
    b: Seq<Seq<usize>>,
    k: int,
    graph: Graph,
    n: int,
)
    requires
        0 <= n <= a.len(),
        n <= b.len(),
        forall|s: int| 0 <= s < n ==> a[s] == b[s],
    ensures
        swept_all(t, a, k, graph, n) == swept_all(t, b, k, graph, n),
    decreases n,
{
    if n > 0 {
        lemma_swept_all_same(t, a, b, k, graph, n - 1);
    }
}

proof fn lemma_stepped_same(
    t: Seq<Seq<Pos>>,
    a: Seq<Seq<bool>>,
    b: Seq<Seq<bool>>,
    graph: Graph,
    n: int,
)
    requires
        0 <= n <= a.len(),
        n <= b.len(),
        forall|s: int| 0 <= s < n ==> a[s] == b[s],
    ensures
        stepped(t, a, graph, n) == stepped(t, b, graph, n),
    decreases n,
{
    if n > 0 {
        lemma_stepped_same(t, a, b, graph, n - 1);
    }
}

/// One epoch of a worker on its copy of the trace: where the worker has just begun, the
/// constraints are set aside one by one, twice over in a random order; after `PATIENCE`
/// epochs without gain, once; else random partitions are tried. The score never falls.
pub fn refine_epoch(
    state: &AlnState,
    graph: &Graph,
    r: &mut ClusteringResult,
    rng: &mut SmallRng,
    frustration: i32,
)
    requires
        scorable(*graph),
    ensures
        epoch_result(
            old(r)@,
            final(r)@,
            state.column_counts@.len() as int,
            frustration as int,
            *graph,
        ),
        graph.score_of(final(r)@) >= graph.score_of(old(r)@),
        is_trace(old(r)@, state.column_counts@) ==> is_trace(final(r)@, state.column_counts@),
        final(r).mwt_am == old(r).mwt_am,
        state.column_counts@.len() < 2 ==> final(r)@ == old(r)@,
{
    let k = state.column_counts.len();
    if k < 2 {
        return ;
    }
    let ghost t0 = r@;
    let mut part = bitset_new(k);
    if frustration == PATIENCE || frustration == -1 {
        let sweeps: usize = if frustration == PATIENCE {
            1
        } else {
            2
        };
        let mut slice: Vec<usize> = Vec::new();
        let mut i: usize = 0;
        while i < k
            invariant
                i <= k,
                slice@.len() == i,
                forall|j: int| 0 <= j < i ==> slice@[j] == j,
            decreases k - i,
        {
            slice.push(i);
            i += 1;
        }
        proof {
            assert forall|c: usize| c < k implies #[trigger] slice@.contains(c) by {
                assert(slice@[c as int] == c);
            }
        }
        let ghost mut orders: Seq<Seq<usize>> = Seq::empty();
        let mut sweep: usize = 0;
        while sweep < sweeps
            invariant
                sweep <= sweeps,
                scorable(*graph),
                k == state.column_counts@.len(),
                bits_of(part) == Seq::new(k as nat, |i: int| false),
                is_order(slice@, k as int),
                orders.len() == sweep,
                forall|s: int| 0 <= s < orders.len() ==> is_order(#[trigger] orders[s], k as int),
                r@ == swept_all(t0, orders, k as int, *graph, sweep as int),
                graph.score_of(r@) >= graph.score_of(old(r)@),
                is_trace(old(r)@, state.column_counts@) ==> is_trace(r@, state.column_counts@),
                r.mwt_am == old(r).mwt_am,
            decreases sweeps - sweep,
        {
            let ghost s0 = slice@;
            let ghost base = r@;
            rng_shuffle(rng, &mut slice);
            proof {
                s0.to_multiset_ensures();
                slice@.to_multiset_ensures();
                assert forall|j: int| 0 <= j < slice@.len() implies #[trigger] slice@[j] < k by {
                    assert(slice@.contains(slice@[j]));
                    assert(slice@.to_multiset().count(slice@[j]) > 0);
                    assert(s0.contains(slice@[j]));
                    let q = choose|q: int| 0 <= q < s0.len() && s0[q] == slice@[j];
                    assert(s0[q] < k);
                }
                assert forall|c: usize| c < k implies #[trigger] slice@.contains(c) by {
                    assert(s0.contains(c));
                    assert(s0.to_multiset().count(c) > 0);
                }
            }
            let mut j: usize = 0;
            while j < slice.len()
                invariant
                    j <= slice@.len(),
                    scorable(*graph),
                    k == state.column_counts@.len(),
                    bits_of(part) == Seq::new(k as nat, |i: int| false),
                    is_order(slice@, k as int),
                    r@ == swept(base, slice@, k as int, *graph, j as int),
                    graph.score_of(r@) >= graph.score_of(old(r)@),
                    is_trace(old(r)@, state.column_counts@) ==> is_trace(
                        r@,
                        state.column_counts@,
                    ),
                    r.mwt_am == old(r).mwt_am,
                decreases slice.len() - j,
            {
                let c = slice[j];
                assert(slice@[j as int] < k);
                bitset_set(&mut part, c, true);
                assert(bits_of(part) =~= single(k as int, c as int));
                iterative_refinement_step(state, graph, r, &part);
                bitset_set(&mut part, c, false);
                assert(bits_of(part) =~= Seq::new(k as nat, |i: int| false));
                j += 1;
            }
            proof {
                let before = orders;
                orders = orders.push(slice@);
                lemma_swept_all_same(t0, before, orders, k as int, *graph, sweep as int);
                assert forall|s: int| 0 <= s < orders.len() implies is_order(
                    #[trigger] orders[s],
                    k as int,
                ) by {
                    if s < sweep {
                        assert(orders[s] == before[s]);
                    }
                }
            }
            sweep += 1;
        }
        proof {
            assert(orders_fit(orders, k as int, frustration as int));
        }
    } else {
        let ghost mut parts: Seq<Seq<bool>> = Seq::empty();
        let mut step: usize = 0;
        while step < RANDOM_STEPS
            invariant
                step <= RANDOM_STEPS,
                scorable(*graph),
                k >= 2,
                k == state.column_counts@.len(),
                bits_of(part) == Seq::new(k as nat, |i: int| false),
                parts.len() == step,
                forall|i: int|
                    0 <= i < parts.len() ==> (#[trigger] parts[i]).len() == k && 1 <= part_size(
                        parts[i],
                        k as int,
                    ) <= k - 1,
                r@ == stepped(t0, parts, *graph, step as int),
                graph.score_of(r@) >= graph.score_of(old(r)@),
                is_trace(old(r)@, state.column_counts@) ==> is_trace(r@, state.column_counts@),
                r.mwt_am == old(r).mwt_am,
            decreases RANDOM_STEPS - step,
        {
            random_partition(rng, k, &mut part);
            iterative_refinement_step(state, graph, r, &part);
            proof {
                let before = parts;
                parts = parts.push(bits_of(part));
                lemma_stepped_same(t0, before, parts, *graph, step as int);
                assert forall|i: int| 0 <= i < parts.len() implies (#[trigger] parts[i]).len() == k
                    && 1 <= part_size(parts[i], k as int) <= k - 1 by {
                    if i < step {
                        assert(parts[i] == before[i]);
                    }
                }
            }
            bitset_clear(&mut part);
            step += 1;
        }
        proof {
            assert(parts_fit(parts, k as int));
        }
    }
}

/// What a worker does with the trace it has refined: it takes the place of the best trace
/// where it scores higher, and the worker's count of epochs without gain starts anew; else
/// the count goes up by one.
pub fn publish(best: &mut ClusteringResult, candidate: ClusteringResult, score: u32, frustration: i32) -> (f:
    i32)
    requires
        frustration < i32::MAX,
    ensures
        score > old(best).mwt_am ==> final(best).clusters == candidate.clusters && final(best).mwt_am
            == score && f == 0,
        score <= old(best).mwt_am ==> *final(best) == *old(best) && f == frustration + 1,
        final(best).mwt_am >= old(best).mwt_am,
{
    if score > best.mwt_am {
        best.mwt_am = score;
        best.clusters = candidate.clusters;
        0
    } else {
        frustration + 1
    }
}

/// What one epoch makes of the best trace `b0` of a worker with `f0` epochs without gain:
/// a copy is refined; where it scores higher it is the best trace from now on and the count
/// starts anew, else the best trace stays and the count goes up by one.
pub open spec fn worker_epoch(
    b0: Seq<Seq<Pos>>,
    f0: int,
    b1: Seq<Seq<Pos>>,
    f1: int,
    k: int,
    graph: Graph,
) -> bool {
    exists|r: Seq<Seq<Pos>>|
        #[trigger] epoch_result(b0, r, k, f0, graph) && (if graph.score_of(r) > graph.score_of(b0) {
            b1 == r && f1 == 0
        } else {
            b1 == b0 && f1 == f0 + 1
        })
}

/// Epoch `e` of a run leads from the best trace and the count before it to those after it.
pub open spec fn epoch_at(
    bests: Seq<Seq<Seq<Pos>>>,
    counts: Seq<int>,
    e: int,
    k: int,
    graph: Graph,
) -> bool {
    worker_epoch(bests[e], counts[e], bests[e + 1], counts[e + 1], k, graph)
}

/// The best traces and the counts of epochs without gain of a worker, before its first
/// epoch and after each of its first `n`: the worker has just begun, and each epoch leads
/// from one to the next.
pub open spec fn worker_run(
    bests: Seq<Seq<Seq<Pos>>>,
    counts: Seq<int>,
    n: int,
    k: int,
    graph: Graph,
) -> bool {
    &&& bests.len() == n + 1
    &&& counts.len() == n + 1
    &&& counts[0] == -1
    &&& forall|e: int| 0 <= e < n ==> #[trigger] epoch_at(bests, counts, e, k, graph)
}

/// The epochs of one worker on the best trace of its group, one after the other.
pub fn run_worker(state: &AlnState, graph: &Graph, best: &mut ClusteringResult, rng: &mut SmallRng)
    requires
        scorable(*graph),
        old(best).mwt_am == graph.score_of(old(best)@),
    ensures
        exists|bests: Seq<Seq<Seq<Pos>>>, counts: Seq<int>|
            #[trigger] worker_run(
                bests,
                counts,
                EPOCHS as int,
                state.column_counts@.len() as int,
                *graph,
            ) && bests[0] == old(best)@ && bests[EPOCHS as int] == final(best)@,
        final(best).mwt_am == graph.score_of(final(best)@),
        graph.score_of(final(best)@) >= graph.score_of(old(best)@),
        is_trace(old(best)@, state.column_counts@) ==> is_trace(final(best)@, state.column_counts@),
{
    let ghost k = state.column_counts@.len() as int;
    let ghost mut bests: Seq<Seq<Seq<Pos>>> = seq![best@];
    let ghost mut counts: Seq<int> = seq![-1int];
    let mut frustration: i32 = -1;
    let mut epoch: usize = 0;
    while epoch < EPOCHS
        invariant
            epoch <= EPOCHS,
            -1 <= frustration <= epoch,
            scorable(*graph),
            k == state.column_counts@.len(),
            worker_run(bests, counts, epoch as int, k, *graph),
            bests[0] == old(best)@,
            bests[epoch as int] == best@,
            counts[epoch as int] == frustration,
            best.mwt_am == graph.score_of(best@),
            graph.score_of(best@) >= graph.score_of(old(best)@),
            is_trace(old(best)@, state.column_counts@) ==> is_trace(best@, state.column_counts@),
        decreases EPOCHS - epoch,
    {
        let ghost b0 = best@;
        let mut r = ClusteringResult { clusters: copy_clusters(&best.clusters), mwt_am: best.mwt_am };
        assert(r@ == best@);
        refine_epoch(state, graph, &mut r, rng, frustration);
        let ghost refined = r@;
        let score = r.mwt_am_score(state, graph) as u32;
        let ghost f0 = frustration as int;
        frustration = publish(best, r, score, frustration);
        proof {
            assert(epoch_result(b0, refined, k, f0, *graph));
            assert(worker_epoch(b0, f0, best@, frustration as int, k, *graph));
            let before = bests;
            let counted = counts;
            bests = bests.push(best@);
            counts = counts.push(frustration as int);
            assert forall|e: int| 0 <= e < epoch + 1 implies #[trigger] epoch_at(
                bests,
                counts,
                e,
                k,
                *graph,
            ) by {
                if e < epoch {
                    assert(epoch_at(before, counted, e, k, *graph));
                    assert(bests[e] == before[e] && bests[e + 1] == before[e + 1]);
                    assert(counts[e] == counted[e] && counts[e + 1] == counted[e + 1]);
                }
            }
        }
        epoch += 1;
    }
}

/// The columns of the cluster stand by constraint, none before one of a smaller constraint.
pub open spec fn rising(c: Seq<Pos>) -> bool {
    forall|i: int, j: int| 0 <= i < j < c.len() ==> c[i].0 <= c[j].0
}

/// The trace `u` is the trace `t` with the columns of each cluster put by constraint.
pub open spec fn sorted_form(t: Seq<Seq<Pos>>, u: Seq<Seq<Pos>>) -> bool {
    &&& u.len() == t.len()
    &&& forall|x: int|
        0 <= x < t.len() ==> (#[trigger] u[x]).to_multiset() == t[x].to_multiset() && rising(u[x])
}

/// Worker `w` of a group leads, by a run of `EPOCHS` epochs, from the best trace of the
/// group before it to the one after it.
pub open spec fn worker_at(chain: Seq<Seq<Seq<Pos>>>, w: int, k: int, graph: Graph) -> bool {
    exists|bests: Seq<Seq<Seq<Pos>>>, counts: Seq<int>|
        #[trigger] worker_run(bests, counts, EPOCHS as int, k, graph) && bests[0] == chain[w]
            && bests[EPOCHS as int] == chain[w + 1]
}

/// The best traces of a group of workers, before the first worker and after each of the
/// first `n`.
pub open spec fn group_run(chain: Seq<Seq<Seq<Pos>>>, n: int, k: int, graph: Graph) -> bool {
    &&& chain.len() == n + 1
    &&& forall|w: int| 0 <= w < n ==> #[trigger] worker_at(chain, w, k, graph)
}

/// Two groups of `WORKERS` workers each set out from the trace `t0`.
pub open spec fn groups_run(
    a: Seq<Seq<Seq<Pos>>>,
    b: Seq<Seq<Seq<Pos>>>,
    t0: Seq<Seq<Pos>>,
    k: int,
    graph: Graph,
) -> bool {
    &&& group_run(a, WORKERS as int, k, graph)
    &&& group_run(b, WORKERS as int, k, graph)
    &&& a[0] == t0
    &&& b[0] == t0
}

/// The better of what the two groups reached: that of the first where it scores higher,
/// else that of the second.
pub open spec fn better_of(a: Seq<Seq<Seq<Pos>>>, b: Seq<Seq<Seq<Pos>>>, graph: Graph) -> Seq<Seq<Pos>> {
    if graph.score_of(a[WORKERS as int]) > graph.score_of(b[WORKERS as int]) {
        a[WORKERS as int]
    } else {
        b[WORKERS as int]
    }
}

/// What refining the trace `t0` can give: two groups of workers set out from it, and `out`
/// is the better of what the two reached, with the columns of each cluster put by
/// constraint.
pub open spec fn refinement(t0: Seq<Seq<Pos>>, out: Seq<Seq<Pos>>, k: int, graph: Graph) -> bool {
    exists|a: Seq<Seq<Seq<Pos>>>, b: Seq<Seq<Seq<Pos>>>|
        #[trigger] groups_run(a, b, t0, k, graph) && sorted_form(better_of(a, b, graph), out)
}

proof fn lemma_group_keeps(chain: Seq<Seq<Seq<Pos>>>, n: int, k: int, graph: Graph, w: int)
    requires
        group_run(chain, n, k, graph),
        0 <= w <= n,
    ensures
        refined_from(chain[0], chain[w]),
    decreases w,
{
    if w > 0 {
        lemma_group_keeps(chain, n, k, graph, w - 1);
        assert(worker_at(chain, w - 1, k, graph));
        let (bests, counts) = choose|bests: Seq<Seq<Seq<Pos>>>, counts: Seq<int>|
            #[trigger] worker_run(bests, counts, EPOCHS as int, k, graph) && bests[0] == chain[w - 1]
                && bests[EPOCHS as int] == chain[w];
        lemma_run_keeps(bests, counts, EPOCHS as int, k, graph);
        lemma_refined_on(chain[0], chain[w - 1], chain[w]);
    }
}

/// The trace with its columns put by constraint holds the same columns, cluster by cluster.
pub proof fn lemma_sorted_form(t: Seq<Seq<Pos>>, u: Seq<Seq<Pos>>)
    requires
        sorted_form(t, u),
    ensures
        same_columns(t, u),
        no_empty(t) ==> no_empty(u),
        forall|x: int, p: Pos| 0 <= x < t.len() ==> (#[trigger] u[x].contains(p) <==> t[x].contains(p)),
{
    assert forall|x: int, p: Pos| 0 <= x < t.len() implies (#[trigger] u[x].contains(p)
        <==> t[x].contains(p)) by {
        t[x].to_multiset_ensures();
        u[x].to_multiset_ensures();
        assert(u[x].to_multiset() == t[x].to_multiset());
        assert(u[x].contains(p) <==> u[x].to_multiset().count(p) > 0);
        assert(t[x].contains(p) <==> t[x].to_multiset().count(p) > 0);
    }
    assert forall|p: Pos|
        #![trigger hosts(t, p)]
        #![trigger hosts(u, p)]
        hosts(t, p) <==> hosts(u, p) by {
        if hosts(t, p) {
            let x = choose|x: int| 0 <= x < t.len() && (#[trigger] t[x]).contains(p);
            assert(u[x].contains(p));
        }
        if hosts(u, p) {
            let x = choose|x: int| 0 <= x < u.len() && (#[trigger] u[x]).contains(p);
            assert(t[x].contains(p));
        }
    }
    if no_empty(t) {
        assert forall|x: int| 0 <= x < u.len() implies (#[trigger] u[x]).len() > 0 by {
            t[x].to_multiset_ensures();
            u[x].to_multiset_ensures();
            assert(u[x].to_multiset() == t[x].to_multiset());
            assert(t[x].len() > 0);
            assert(u[x].to_multiset().len() == u[x].len());
            assert(t[x].to_multiset().len() == t[x].len());
        }
    }
}

/// What refinement gives holds the columns of the trace it set out from; it has as many
/// clusters, or none of its clusters is empty.
pub proof fn lemma_refinement_keeps(t0: Seq<Seq<Pos>>, out: Seq<Seq<Pos>>, k: int, graph: Graph)
    requires
        refinement(t0, out, k, graph),
    ensures
        same_columns(t0, out),
        out.len() == t0.len() || no_empty(out),
        no_empty(t0) ==> no_empty(out),
{
    let (a, b) = choose|a: Seq<Seq<Seq<Pos>>>, b: Seq<Seq<Seq<Pos>>>|
        #[trigger] groups_run(a, b, t0, k, graph) && sorted_form(better_of(a, b, graph), out);
    lemma_group_keeps(a, WORKERS as int, k, graph, WORKERS as int);
    lemma_group_keeps(b, WORKERS as int, k, graph, WORKERS as int);
    let best = better_of(a, b, graph);
    lemma_sorted_form(best, out);
    assert(refined_from(t0, best));
    assert forall|p: Pos|
        #![trigger hosts(t0, p)]
        #![trigger hosts(out, p)]
        hosts(t0, p) <==> hosts(out, p) by {
        assert(hosts(t0, p) <==> hosts(best, p));
        assert(hosts(best, p) <==> hosts(out, p));
    }
}

/// Refines a trace: two copies of it are each worked on by `WORKERS` workers for `EPOCHS`
/// epochs; the better of the two is returned, with the columns of each cluster by rising
/// constraint. The score of what is returned is at least that of the trace given, and its
/// columns are those of the trace given.
pub fn iterative_refinement(
    state: &AlnState,
    graph: &Graph,
    res: ClusteringResult,
    rng: &mut SmallRng,
) -> (out: ClusteringResult)
    requires
        scorable(*graph),
    ensures
        refinement(res@, out@, state.column_counts@.len() as int, *graph),
        same_columns(res@, out@),
        out@.len() == res@.len() || no_empty(out@),
        no_empty(res@) ==> no_empty(out@),
        graph.score_of(out@) >= graph.score_of(res@),
        out.mwt_am == graph.score_of(out@),
        is_trace(res@, state.column_counts@) ==> is_sorted_trace(out@, state.column_counts@),
{
    let ghost k = state.column_counts@.len() as int;
    let og_score = res.mwt_am_score(state, graph) as u32;
    let mut sol = ClusteringResult { clusters: copy_clusters(&res.clusters), mwt_am: og_score };
    let mut sol2 = ClusteringResult { clusters: res.clusters, mwt_am: og_score };
    assert(sol@ == res@);
    let ghost mut a: Seq<Seq<Seq<Pos>>> = seq![res@];
    let ghost mut b: Seq<Seq<Seq<Pos>>> = seq![res@];
    let mut w: usize = 0;
    while w < WORKERS
        invariant
            w <= WORKERS,
            scorable(*graph),
            k == state.column_counts@.len(),
            group_run(a, w as int, k, *graph),
            a[0] == res@,
            a[w as int] == sol@,
            sol.mwt_am == graph.score_of(sol@),
            graph.score_of(sol@) >= graph.score_of(res@),
            is_trace(res@, state.column_counts@) ==> is_trace(sol@, state.column_counts@),
        decreases WORKERS - w,
    {
        run_worker(state, graph, &mut sol, rng);
        proof {
            let before = a;
            a = a.push(sol@);
            assert forall|v: int| 0 <= v < w + 1 implies #[trigger] worker_at(a, v, k, *graph) by {
                if v < w {
                    assert(worker_at(before, v, k, *graph));
                    assert(a[v] == before[v] && a[v + 1] == before[v + 1]);
                }
            }
        }
        w += 1;
    }
    let mut w: usize = 0;
    while w < WORKERS
        invariant
            w <= WORKERS,
            scorable(*graph),
            k == state.column_counts@.len(),
            group_run(b, w as int, k, *graph),
            b[0] == res@,
            b[w as int] == sol2@,
            sol2.mwt_am == graph.score_of(sol2@),
            graph.score_of(sol2@) >= graph.score_of(res@),
            is_trace(res@, state.column_counts@) ==> is_trace(sol2@, state.column_counts@),
        decreases WORKERS - w,
    {
        run_worker(state, graph, &mut sol2, rng);
        proof {
            let before = b;
            b = b.push(sol2@);
            assert forall|v: int| 0 <= v < w + 1 implies #[trigger] worker_at(b, v, k, *graph) by {
                if v < w {
                    assert(worker_at(before, v, k, *graph));
                    assert(b[v] == before[v] && b[v + 1] == before[v + 1]);
                }
            }
        }
        w += 1;
    }
    let best = if sol.mwt_am > sol2.mwt_am {
        sol
    } else {
        sol2
    };
    let sorted = sort_clusters(&best.clusters);
    proof {
        let t = best@;
        let u = rows_of(sorted@);
        assert(groups_run(a, b, res@, k, *graph));
        assert(t == better_of(a, b, *graph));
        assert(sorted_form(t, u)) by {
            assert forall|x: int| 0 <= x < t.len() implies (#[trigger] u[x]).to_multiset()
                == t[x].to_multiset() && rising(u[x]) by {
                assert(u[x] == sorted@[x]@);
                assert(t[x] == best.clusters@[x]@);
            }
        }
        assert(refinement(res@, u, k, *graph));
        lemma_refinement_keeps(res@, u, k, *graph);
        assert forall|x: int, q: Pos| 0 <= x < t.len() implies (#[trigger] u[x].contains(q)
            <==> t[x].contains(q)) by {
            assert(sorted@[x]@.contains(q) <==> best.clusters@[x]@.contains(q));
        }
        lemma_score_same(t, u, graph.sims.edges@, graph.node_pos@, graph.sims.edges@.len() as int);
        if is_trace(res@, state.column_counts@) {
            assert forall|x: int| 0 <= x < t.len() implies sorted_by_constraint(#[trigger] u[x]) by {
                assert(distinct_constraints(t[x]));
                assert(sorted_by_constraint(sorted@[x]@));
            }
            lemma_sorted_trace(t, u, state.column_counts@);
        }
    }
    ClusteringResult { clusters: sorted, mwt_am: best.mwt_am }
}

} // verus!
