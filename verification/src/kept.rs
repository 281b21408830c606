use vstd::prelude::*;
use vstd::relations::injective_on;
use vstd::set_lib::{lemma_int_range, lemma_len_subset, lemma_map_size, set_int_range};
use crate::cluster::{hosts, is_trace, node_of, offset, strictly_before, Graph, Pos};
use crate::naive_upgma::lemma_offset_rises;
use crate::progressive::{
    epoch_at, epoch_result, halves, in_part, merged, orders_fit, parts_fit, proposal, side_of,
    single, step_result, stepped, swept, swept_all, sweeping, worker_run,
};

verus! {

/// The two traces hold the same columns.
pub open spec fn same_columns(t: Seq<Seq<Pos>>, u: Seq<Seq<Pos>>) -> bool {
    forall|p: Pos|
        #![trigger hosts(t, p)]
        #![trigger hosts(u, p)]
        hosts(t, p) <==> hosts(u, p)
}

/// No cluster of the trace is empty.
pub open spec fn no_empty(t: Seq<Seq<Pos>>) -> bool {
    forall|x: int| 0 <= x < t.len() ==> (#[trigger] t[x]).len() > 0
}

/// What refinement keeps of a trace: the columns are the same; and the trace is as it was,
/// or none of its clusters is empty.
pub open spec fn refined_from(t0: Seq<Seq<Pos>>, t1: Seq<Seq<Pos>>) -> bool {
    same_columns(t0, t1) && (t1 == t0 || no_empty(t1))
}

proof fn lemma_push_contains(s: Seq<Pos>, e: Pos, p: Pos)
    ensures
        s.push(e).contains(p) <==> s.contains(p) || p == e,
{
    let u = s.push(e);
    if s.contains(p) {
        let i = choose|i: int| 0 <= i < s.len() && s[i] == p;
        assert(u[i] == p);
    }
    if p == e {
        assert(u[s.len() as int] == p);
    }
    if u.contains(p) {
        let i = choose|i: int| 0 <= i < u.len() && u[i] == p;
        if i < s.len() {
            assert(s[i] == p);
        }
    }
}

proof fn lemma_add_contains(a: Seq<Pos>, b: Seq<Pos>, p: Pos)
    ensures
        (a + b).contains(p) <==> a.contains(p) || b.contains(p),
{
    let u = a + b;
    if a.contains(p) {
        let i = choose|i: int| 0 <= i < a.len() && a[i] == p;
        assert(u[i] == p);
    }
    if b.contains(p) {
        let i = choose|i: int| 0 <= i < b.len() && b[i] == p;
        assert(u[a.len() + i] == p);
    }
    if u.contains(p) {
        let i = choose|i: int| 0 <= i < u.len() && u[i] == p;
        if i < a.len() {
            assert(a[i] == p);
        } else {
            assert(b[i - a.len()] == p);
        }
    }
}

proof fn lemma_hosts_push(t: Seq<Seq<Pos>>, c: Seq<Pos>, p: Pos)
    ensures
        hosts(t.push(c), p) <==> hosts(t, p) || c.contains(p),
{
    let u = t.push(c);
    if hosts(t, p) {
        let k = choose|k: int| 0 <= k < t.len() && (#[trigger] t[k]).contains(p);
        assert(u[k].contains(p));
    }
    if c.contains(p) {
        assert(u[t.len() as int].contains(p));
    }
    if hosts(u, p) {
        let k = choose|k: int| 0 <= k < u.len() && (#[trigger] u[k]).contains(p);
        if k < t.len() {
            assert(t[k].contains(p));
        }
    }
}

/// Some cluster of the trace holds the column on the given side of the partition.
pub open spec fn side_hosts(t: Seq<Seq<Pos>>, part: Seq<bool>, side: bool, p: Pos) -> bool {
    hosts(t, p) && in_part(part, p.0) == side
}

proof fn lemma_side_member(c: Seq<Pos>, part: Seq<bool>, side: bool, p: Pos)
    ensures
        side_of(c, part, side).contains(p) <==> c.contains(p) && in_part(part, p.0) == side,
    decreases c.len(),
{
    if c.len() > 0 {
        let c0 = c.drop_last();
        let e = c.last();
        lemma_side_member(c0, part, side, p);
        assert(c =~= c0.push(e));
        lemma_push_contains(c0, e, p);
        lemma_push_contains(side_of(c0, part, side), e, p);
    }
}

proof fn lemma_halves_cover(t: Seq<Seq<Pos>>, part: Seq<bool>, side: bool, p: Pos)
    ensures
        hosts(halves(t, part, side), p) <==> side_hosts(t, part, side, p),
        no_empty(halves(t, part, side)),
    decreases t.len(),
{
    if t.len() > 0 {
        let t0 = t.drop_last();
        let s = side_of(t.last(), part, side);
        lemma_halves_cover(t0, part, side, p);
        lemma_side_member(t.last(), part, side, p);
        assert(t =~= t0.push(t.last()));
        lemma_hosts_push(t0, t.last(), p);
        lemma_hosts_push(halves(t0, part, side), s, p);
    }
}

proof fn lemma_merged_cover(
    c1: Seq<Seq<Pos>>,
    c2: Seq<Seq<Pos>>,
    w: Seq<Seq<u64>>,
    i: int,
    j: int,
    p: Pos,
)
    requires
        0 <= i <= c1.len(),
        0 <= j <= c2.len(),
        no_empty(c1),
        no_empty(c2),
    ensures
        hosts(merged(c1, c2, w, i, j), p) <==> hosts(c1.take(i), p) || hosts(c2.take(j), p),
        no_empty(merged(c1, c2, w, i, j)),
    decreases i + j,
{
    if i == 0 && j == 0 {
    } else {
        let pt = crate::dp::dp_choice(w, true, i, j);
        if pt == 0 {
            lemma_merged_cover(c1, c2, w, i - 1, j - 1, p);
            let l0 = merged(c1, c2, w, i - 1, j - 1);
            lemma_hosts_push(l0, c1[i - 1] + c2[j - 1], p);
            lemma_add_contains(c1[i - 1], c2[j - 1], p);
            assert(c1.take(i) =~= c1.take(i - 1).push(c1[i - 1]));
            assert(c2.take(j) =~= c2.take(j - 1).push(c2[j - 1]));
            lemma_hosts_push(c1.take(i - 1), c1[i - 1], p);
            lemma_hosts_push(c2.take(j - 1), c2[j - 1], p);
        } else if pt == 1 {
            lemma_merged_cover(c1, c2, w, i - 1, j, p);
            let l0 = merged(c1, c2, w, i - 1, j);
            lemma_hosts_push(l0, c1[i - 1], p);
            assert(c1.take(i) =~= c1.take(i - 1).push(c1[i - 1]));
            lemma_hosts_push(c1.take(i - 1), c1[i - 1], p);
        } else {
            lemma_merged_cover(c1, c2, w, i, j - 1, p);
            let l0 = merged(c1, c2, w, i, j - 1);
            lemma_hosts_push(l0, c2[j - 1], p);
            assert(c2.take(j) =~= c2.take(j - 1).push(c2[j - 1]));
            lemma_hosts_push(c2.take(j - 1), c2[j - 1], p);
        }
    }
}

/// What a refinement step proposes holds the columns of the trace, and none of its clusters
/// is empty.
pub proof fn lemma_proposal_keeps(t: Seq<Seq<Pos>>, part: Seq<bool>, graph: Graph)
    ensures
        same_columns(t, proposal(t, part, graph)),
        no_empty(proposal(t, part, graph)),
{
    let c1 = halves(t, part, true);
    let c2 = halves(t, part, false);
    let w = crate::progressive::cross_weights(c1, c2, part, graph.sims.edges@, graph.node_pos@);
    let u = proposal(t, part, graph);
    let any = (0u32, 0u32);
    lemma_halves_cover(t, part, true, any);
    lemma_halves_cover(t, part, false, any);
    lemma_merged_cover(c1, c2, w, c1.len() as int, c2.len() as int, any);
    assert(c1.take(c1.len() as int) =~= c1);
    assert(c2.take(c2.len() as int) =~= c2);
    assert forall|p: Pos|
        #![trigger hosts(t, p)]
        #![trigger hosts(u, p)]
        hosts(t, p) <==> hosts(u, p) by {
        lemma_halves_cover(t, part, true, p);
        lemma_halves_cover(t, part, false, p);
        lemma_merged_cover(c1, c2, w, c1.len() as int, c2.len() as int, p);
    }
}

/// A refinement step keeps the columns of the trace, and leaves it as it was or without an
/// empty cluster.
pub proof fn lemma_step_keeps(t: Seq<Seq<Pos>>, part: Seq<bool>, graph: Graph)
    ensures
        refined_from(t, step_result(t, part, graph)),
{
    lemma_proposal_keeps(t, part, graph);
}

/// What is refined from a trace that is refined from another is refined from that other.
pub proof fn lemma_refined_on(t0: Seq<Seq<Pos>>, t1: Seq<Seq<Pos>>, t2: Seq<Seq<Pos>>)
    requires
        refined_from(t0, t1),
        refined_from(t1, t2),
    ensures
        refined_from(t0, t2),
{
    assert forall|p: Pos|
        #![trigger hosts(t0, p)]
        #![trigger hosts(t2, p)]
        hosts(t0, p) <==> hosts(t2, p) by {
        assert(hosts(t0, p) <==> hosts(t1, p));
        assert(hosts(t1, p) <==> hosts(t2, p));
    }
}

proof fn lemma_swept_keeps(t: Seq<Seq<Pos>>, order: Seq<usize>, k: int, graph: Graph, n: int)
    ensures
        refined_from(t, swept(t, order, k, graph, n)),
    decreases n,
{
    if n > 0 {
        lemma_swept_keeps(t, order, k, graph, n - 1);
        let m = swept(t, order, k, graph, n - 1);
        lemma_step_keeps(m, single(k, order[n - 1] as int), graph);
        lemma_refined_on(t, m, swept(t, order, k, graph, n));
    }
}

proof fn lemma_swept_all_keeps(t: Seq<Seq<Pos>>, orders: Seq<Seq<usize>>, k: int, graph: Graph, n: int)
    ensures
        refined_from(t, swept_all(t, orders, k, graph, n)),
    decreases n,
{
    if n > 0 {
        lemma_swept_all_keeps(t, orders, k, graph, n - 1);
        let m = swept_all(t, orders, k, graph, n - 1);
        lemma_swept_keeps(m, orders[n - 1], k, graph, k);
        lemma_refined_on(t, m, swept_all(t, orders, k, graph, n));
    }
}

proof fn lemma_stepped_keeps(t: Seq<Seq<Pos>>, parts: Seq<Seq<bool>>, graph: Graph, n: int)
    ensures
        refined_from(t, stepped(t, parts, graph, n)),
    decreases n,
{
    if n > 0 {
        lemma_stepped_keeps(t, parts, graph, n - 1);
        let m = stepped(t, parts, graph, n - 1);
        lemma_step_keeps(m, parts[n - 1], graph);
        lemma_refined_on(t, m, stepped(t, parts, graph, n));
    }
}

/// An epoch keeps the columns of the trace, and leaves it as it was or without an empty
/// cluster.
pub proof fn lemma_epoch_keeps(
    t0: Seq<Seq<Pos>>,
    t1: Seq<Seq<Pos>>,
    k: int,
    frustration: int,
    graph: Graph,
)
    requires
        epoch_result(t0, t1, k, frustration, graph),
    ensures
        refined_from(t0, t1),
{
    if k < 2 {
    } else if sweeping(frustration) {
        let orders = choose|orders: Seq<Seq<usize>>|
            #[trigger] orders_fit(orders, k, frustration) && t1 == swept_all(
                t0,
                orders,
                k,
                graph,
                orders.len() as int,
            );
        lemma_swept_all_keeps(t0, orders, k, graph, orders.len() as int);
    } else {
        let parts = choose|parts: Seq<Seq<bool>>|
            #[trigger] parts_fit(parts, k) && t1 == stepped(t0, parts, graph, parts.len() as int);
        lemma_stepped_keeps(t0, parts, graph, parts.len() as int);
    }
}

proof fn lemma_run_keeps_upto(
    bests: Seq<Seq<Seq<Pos>>>,
    counts: Seq<int>,
    n: int,
    k: int,
    graph: Graph,
    e: int,
)
    requires
        worker_run(bests, counts, n, k, graph),
        0 <= e <= n,
    ensures
        refined_from(bests[0], bests[e]),
    decreases e,
{
    if e > 0 {
        lemma_run_keeps_upto(bests, counts, n, k, graph, e - 1);
        assert(epoch_at(bests, counts, e - 1, k, graph));
        let b0 = bests[e - 1];
        let f0 = counts[e - 1];
        let r = choose|r: Seq<Seq<Pos>>|
            #[trigger] epoch_result(b0, r, k, f0, graph) && (if graph.score_of(r) > graph.score_of(
                b0,
            ) {
                bests[e] == r && counts[e] == 0
            } else {
                bests[e] == b0 && counts[e] == f0 + 1
            });
        lemma_epoch_keeps(b0, r, k, f0, graph);
        lemma_refined_on(bests[0], b0, bests[e]);
    }
}

/// The run of a worker keeps the columns of the trace, and leaves it as it was or without
/// an empty cluster.
pub proof fn lemma_run_keeps(
    bests: Seq<Seq<Seq<Pos>>>,
    counts: Seq<int>,
    n: int,
    k: int,
    graph: Graph,
)
    requires
        worker_run(bests, counts, n, k, graph),
        0 <= n,
    ensures
        refined_from(bests[0], bests[n]),
{
    lemma_run_keeps_upto(bests, counts, n, k, graph, n);
}

/// A column that comes before another has the smaller node.
pub proof fn lemma_node_rises(counts: Seq<usize>, p: Pos, q: Pos)
    requires
        p.0 < counts.len(),
        q.0 < counts.len(),
        p.1 < counts[p.0 as int],
        q.1 < counts[q.0 as int],
        p.0 < q.0 || (p.0 == q.0 && p.1 < q.1),
    ensures
        node_of(counts, p) < node_of(counts, q),
        0 <= node_of(counts, q) < offset(counts, counts.len() as int),
{
    lemma_offset_rises(counts, 0, q.0 as int);
    lemma_offset_rises(counts, q.0 as int + 1, counts.len() as int);
    if p.0 < q.0 {
        lemma_offset_rises(counts, p.0 as int + 1, q.0 as int);
    }
}

/// The node of the first column of cluster `x` of the trace.
pub open spec fn lead_node(t: Seq<Seq<Pos>>, counts: Seq<usize>) -> spec_fn(int) -> int {
    |x: int| node_of(counts, t[x][0])
}

/// A trace without an empty cluster has no more clusters than the constraints have columns.
pub proof fn lemma_trace_len(t: Seq<Seq<Pos>>, counts: Seq<usize>)
    requires
        is_trace(t, counts),
        no_empty(t),
    ensures
        t.len() <= offset(counts, counts.len() as int),
{
    let n = t.len() as int;
    let size = offset(counts, counts.len() as int);
    lemma_offset_rises(counts, 0, counts.len() as int);
    let f = lead_node(t, counts);
    let xs = set_int_range(0, n);
    let ys = xs.map(f);
    lemma_int_range(0, n);
    lemma_int_range(0, size);
    assert forall|x: int| 0 <= x < n implies 0 <= #[trigger] f(x) < size by {
        let p = t[x][0];
        assert(crate::cluster::cluster_in_range(t[x], counts));
        lemma_offset_rises(counts, 0, p.0 as int);
        lemma_offset_rises(counts, p.0 as int + 1, counts.len() as int);
    }
    assert(injective_on(f, xs)) by {
        assert forall|x1: int, x2: int|
            xs.contains(x1) && xs.contains(x2) && #[trigger] f(x1) == #[trigger] f(x2) implies x1
            == x2 by {
            if x1 != x2 {
                let p = t[x1][0];
                let q = t[x2][0];
                assert(crate::cluster::cluster_in_range(t[x1], counts));
                assert(crate::cluster::cluster_in_range(t[x2], counts));
                if p.0 < q.0 || (p.0 == q.0 && p.1 < q.1) {
                    lemma_node_rises(counts, p, q);
                } else if q.0 < p.0 || (q.0 == p.0 && q.1 < p.1) {
                    lemma_node_rises(counts, q, p);
                } else {
                    assert(p == q);
                    if x1 < x2 {
                        assert(strictly_before(t[x1], t[x2]));
                    } else {
                        assert(strictly_before(t[x2], t[x1]));
                    }
                }
            }
        }
    }
    lemma_map_size(xs, ys, f);
    assert(ys.subset_of(set_int_range(0, size))) by {
        assert forall|y: int| ys.contains(y) implies set_int_range(0, size).contains(y) by {
            let x = choose|x: int| xs.contains(x) && y == f(x);
            assert(0 <= f(x) < size);
        }
    }
    lemma_len_subset(ys, set_int_range(0, size));
}

} // verus!
