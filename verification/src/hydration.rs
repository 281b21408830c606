use vstd::prelude::*;
use crate::cluster::{
    catch_up, constraints_known, hosts, hydrate_clusters, hydrate_column, hydrate_columns,
    hydrate_rest, hydrated, label_columns, labels_below, Graph, Hydration, Pos,
};

verus! {

/// The cluster is one label alone.
pub open spec fn is_lone_label(c: Seq<Pos>, l: Seq<Pos>) -> bool {
    c.len() == 1 && l.contains(c[0])
}

/// The trace `out` holds the clusters of `t` at the places `idx`, in their order, and
/// besides them only labels, each alone in its cluster.
pub open spec fn filled_in(t: Seq<Seq<Pos>>, out: Seq<Seq<Pos>>, l: Seq<Pos>, idx: Seq<int>) -> bool {
    &&& idx.len() == t.len()
    &&& forall|x: int| 0 <= x < t.len() ==> 0 <= #[trigger] idx[x] < out.len() && out[idx[x]] == t[x]
    &&& forall|x: int, y: int| 0 <= x < y < t.len() ==> idx[x] < idx[y]
    &&& forall|y: int| 0 <= y < out.len() ==> idx.contains(y) || is_lone_label(#[trigger] out[y], l)
}

/// The trace `b` is the trace `a` with labels, each alone in its cluster, behind it.
pub open spec fn grown(a: Seq<Seq<Pos>>, b: Seq<Seq<Pos>>, l: Seq<Pos>) -> bool {
    &&& a.len() <= b.len()
    &&& forall|y: int| 0 <= y < a.len() ==> #[trigger] b[y] == a[y]
    &&& forall|y: int| a.len() <= y < b.len() ==> is_lone_label(#[trigger] b[y], l)
}

proof fn lemma_grown_on(a: Seq<Seq<Pos>>, b: Seq<Seq<Pos>>, c: Seq<Seq<Pos>>, l: Seq<Pos>)
    requires
        grown(a, b, l),
        grown(b, c, l),
    ensures
        grown(a, c, l),
{
    assert forall|y: int| 0 <= y < a.len() implies #[trigger] c[y] == a[y] by {
        assert(b[y] == a[y]);
    }
}

proof fn lemma_catch_up(l: Seq<Pos>, k: int, col: int, at: int, out: Seq<Seq<Pos>>)
    ensures
        grown(out, catch_up(l, k, col, at, out).1, l),
    decreases l.len() - at,
{
    if 0 <= at < l.len() && l[at].0 == k && l[at].1 <= col {
        let next = if l[at].1 < col {
            out.push(seq![l[at]])
        } else {
            out
        };
        lemma_catch_up(l, k, col, at + 1, next);
        assert(grown(out, next, l)) by {
            if l[at].1 < col {
                assert(next[out.len() as int][0] == l[at]);
            }
        }
        lemma_grown_on(out, next, catch_up(l, k, col, at + 1, next).1, l);
    }
}

proof fn lemma_columns(h: Hydration, l: Seq<Pos>, cl: Seq<Pos>, a: int)
    ensures
        grown(h.out, hydrate_columns(h, l, cl, a).out, l),
    decreases a,
{
    if a > 0 {
        lemma_columns(h, l, cl, a - 1);
        let h0 = hydrate_columns(h, l, cl, a - 1);
        let e = cl[a - 1];
        lemma_catch_up(l, e.0 as int, e.1 as int, h0.next[e.0 as int], h0.out);
        lemma_grown_on(h.out, h0.out, hydrate_column(h0, l, e).out, l);
    }
}

proof fn lemma_rest(h: Hydration, l: Seq<Pos>, c: int)
    ensures
        grown(h.out, hydrate_rest(h, l, c).out, l),
    decreases c,
{
    if c > 0 {
        lemma_rest(h, l, c - 1);
        let g = hydrate_rest(h, l, c - 1);
        lemma_catch_up(l, c - 1, 0x1_0000_0000, g.next[c - 1], g.out);
        lemma_grown_on(h.out, g.out, hydrate_rest(h, l, c).out, l);
    }
}

proof fn lemma_clusters(l: Seq<Pos>, t: Seq<Seq<Pos>>, k: int, n: int) -> (idx: Seq<int>)
    requires
        0 <= n <= t.len(),
    ensures
        filled_in(t.take(n), hydrate_clusters(l, t, k, n).out, l, idx),
    decreases n,
{
    if n <= 0 {
        let idx = Seq::<int>::empty();
        assert(t.take(0) =~= Seq::<Seq<Pos>>::empty());
        idx
    } else {
        let idx0 = lemma_clusters(l, t, k, n - 1);
        let h0 = hydrate_clusters(l, t, k, n - 1);
        let h = hydrate_columns(h0, l, t[n - 1], t[n - 1].len() as int);
        lemma_columns(h0, l, t[n - 1], t[n - 1].len() as int);
        let out = h.out.push(t[n - 1]);
        let idx = idx0.push(h.out.len() as int);
        let t0 = t.take(n - 1);
        let t1 = t.take(n);
        assert(t1 =~= t0.push(t[n - 1]));
        assert forall|x: int| 0 <= x < t1.len() implies 0 <= #[trigger] idx[x] < out.len()
            && out[idx[x]] == t1[x] by {
            if x < n - 1 {
                assert(idx0[x] < h0.out.len() && h0.out[idx0[x]] == t0[x]);
                assert(h.out[idx0[x]] == h0.out[idx0[x]]);
            }
        }
        assert forall|x: int, y: int| 0 <= x < y < t1.len() implies idx[x] < idx[y] by {
            if y < n - 1 {
                assert(idx0[x] < idx0[y]);
            } else {
                assert(idx0[x] < h0.out.len());
            }
        }
        assert forall|y: int| 0 <= y < out.len() implies idx.contains(y) || is_lone_label(
            #[trigger] out[y],
            l,
        ) by {
            if y < h0.out.len() {
                assert(out[y] == h0.out[y]);
                if idx0.contains(y) {
                    let x = choose|x: int| 0 <= x < idx0.len() && idx0[x] == y;
                    assert(idx[x] == y);
                }
            } else if y < h.out.len() {
                assert(out[y] == h.out[y]);
            } else {
                assert(idx[n - 1] == y);
            }
        }
        idx
    }
}

/// A trace that is filled up with labels keeps its clusters in their order, and has
/// besides them only labels, each alone in its cluster.
pub proof fn lemma_hydrated(l: Seq<Pos>, t: Seq<Seq<Pos>>, k: int) -> (idx: Seq<int>)
    ensures
        filled_in(t, hydrated(l, t, k), l, idx),
{
    let idx = lemma_clusters(l, t, k, t.len() as int);
    assert(t.take(t.len() as int) =~= t);
    let h = hydrate_clusters(l, t, k, t.len() as int);
    lemma_rest(h, l, k);
    let out = hydrated(l, t, k);
    assert forall|x: int| 0 <= x < t.len() implies 0 <= #[trigger] idx[x] < out.len() && out[idx[x]]
        == t[x] by {
        assert(idx[x] < h.out.len() && h.out[idx[x]] == t[x]);
        assert(out[idx[x]] == h.out[idx[x]]);
    }
    assert forall|y: int| 0 <= y < out.len() implies idx.contains(y) || is_lone_label(
        #[trigger] out[y],
        l,
    ) by {
        if y < h.out.len() {
            assert(out[y] == h.out[y]);
        }
    }
    idx
}

/// The labels stand by constraint, none before one of a smaller constraint.
pub open spec fn by_constraint(l: Seq<Pos>) -> bool {
    forall|i: int, j: int| 0 <= i < j < l.len() ==> l[i].0 <= l[j].0
}

/// The place of the first label of constraint `c`, or of what follows the labels of the
/// constraints before it.
pub open spec fn block_start(l: Seq<Pos>, c: int) -> int {
    labels_below(l, c, l.len() as int)
}

proof fn lemma_below(l: Seq<Pos>, c: int, n: int)
    requires
        by_constraint(l),
        0 <= n <= l.len(),
    ensures
        0 <= labels_below(l, c, n) <= n,
        forall|i: int| 0 <= i < n ==> ((#[trigger] l[i]).0 < c <==> i < labels_below(l, c, n)),
    decreases n,
{
    if n > 0 {
        lemma_below(l, c, n - 1);
        if l[n - 1].0 < c {
            if labels_below(l, c, n - 1) < n - 1 {
                let i = labels_below(l, c, n - 1);
                assert(l[i].0 <= l[n - 1].0);
                assert(l[i].0 < c <==> i < labels_below(l, c, n - 1));
            }
        }
    }
}

/// The labels of constraint `c` are those from the start of its block to the start of the
/// next.
proof fn lemma_block(l: Seq<Pos>, c: int)
    requires
        by_constraint(l),
    ensures
        0 <= block_start(l, c) <= block_start(l, c + 1) <= l.len(),
        forall|i: int|
            0 <= i < l.len() ==> ((#[trigger] l[i]).0 == c <==> block_start(l, c) <= i < block_start(
                l,
                c + 1,
            )),
{
    lemma_below(l, c, l.len() as int);
    lemma_below(l, c + 1, l.len() as int);
    if block_start(l, c + 1) < block_start(l, c) {
        let i = block_start(l, c + 1);
        assert(l[i].0 < c <==> i < block_start(l, c));
        assert(l[i].0 < c + 1 <==> i < block_start(l, c + 1));
    }
}

/// Label `i` stands in a cluster of the trace, or is one of the columns that wait.
pub open spec fn covered(out: Seq<Seq<Pos>>, wait: Seq<Pos>, l: Seq<Pos>, i: int) -> bool {
    hosts(out, l[i]) || wait.contains(l[i])
}

/// The walk stands within the labels of constraint `c`, and the labels of the constraint
/// that it has passed are covered.
pub open spec fn seen_at(h: Hydration, wait: Seq<Pos>, l: Seq<Pos>, c: int) -> bool {
    &&& block_start(l, c) <= h.next[c] <= block_start(l, c + 1)
    &&& forall|i: int| block_start(l, c) <= i < h.next[c] ==> #[trigger] covered(h.out, wait, l, i)
}

/// The walk stands within the labels of each of the `k` constraints, and the labels that it
/// has passed are covered.
pub open spec fn seen(h: Hydration, wait: Seq<Pos>, l: Seq<Pos>, k: int) -> bool {
    &&& h.next.len() == k
    &&& forall|c: int| 0 <= c < k ==> #[trigger] seen_at(h, wait, l, c)
}

proof fn lemma_grown_hosts(a: Seq<Seq<Pos>>, b: Seq<Seq<Pos>>, l: Seq<Pos>, p: Pos)
    requires
        grown(a, b, l),
        hosts(a, p),
    ensures
        hosts(b, p),
{
    let x = choose|x: int| 0 <= x < a.len() && (#[trigger] a[x]).contains(p);
    assert(b[x] == a[x]);
}

proof fn lemma_catch_up_seen(
    l: Seq<Pos>,
    c: int,
    col: int,
    at: int,
    out: Seq<Seq<Pos>>,
    wait: Seq<Pos>,
)
    requires
        by_constraint(l),
        0 <= c,
        block_start(l, c) <= at <= block_start(l, c + 1),
        col == 0x1_0000_0000 || (0 <= col <= u32::MAX && wait.contains((c as u32, col as u32))),
        c <= u32::MAX,
    ensures
        at <= catch_up(l, c, col, at, out).0 <= block_start(l, c + 1),
        forall|i: int|
            at <= i < catch_up(l, c, col, at, out).0 ==> #[trigger] covered(
                catch_up(l, c, col, at, out).1,
                wait,
                l,
                i,
            ),
        col == 0x1_0000_0000 ==> catch_up(l, c, col, at, out).0 == block_start(l, c + 1),
    decreases l.len() - at,
{
    lemma_block(l, c);
    if 0 <= at < l.len() && l[at].0 == c && l[at].1 <= col {
        let next = if l[at].1 < col {
            out.push(seq![l[at]])
        } else {
            out
        };
        lemma_catch_up_seen(l, c, col, at + 1, next, wait);
        lemma_catch_up(l, c, col, at + 1, next);
        let r = catch_up(l, c, col, at, out);
        assert(covered(r.1, wait, l, at)) by {
            if l[at].1 < col {
                assert(next[out.len() as int].contains(l[at])) by {
                    assert(next[out.len() as int][0] == l[at]);
                }
                assert(hosts(next, l[at]));
                lemma_grown_hosts(next, r.1, l, l[at]);
            } else {
                assert(l[at] == (c as u32, col as u32));
            }
        }
    } else {
        if col == 0x1_0000_0000 && at < block_start(l, c + 1) {
            assert(l[at].0 == c);
        }
    }
}

proof fn lemma_seen_on(
    h: Hydration,
    g: Hydration,
    wait: Seq<Pos>,
    l: Seq<Pos>,
    c: int,
)
    requires
        seen_at(h, wait, l, c),
        grown(h.out, g.out, l),
        g.next[c] == h.next[c],
    ensures
        seen_at(g, wait, l, c),
{
    assert forall|i: int| block_start(l, c) <= i < g.next[c] implies #[trigger] covered(
        g.out,
        wait,
        l,
        i,
    ) by {
        assert(covered(h.out, wait, l, i));
        if hosts(h.out, l[i]) {
            lemma_grown_hosts(h.out, g.out, l, l[i]);
        }
    }
}

proof fn lemma_column_seen(h: Hydration, l: Seq<Pos>, k: int, wait: Seq<Pos>, e: Pos)
    requires
        by_constraint(l),
        seen(h, wait, l, k),
        e.0 < k,
        wait.contains(e),
    ensures
        seen(hydrate_column(h, l, e), wait, l, k),
{
    let c = e.0 as int;
    let g = hydrate_column(h, l, e);
    assert(seen_at(h, wait, l, c));
    lemma_catch_up_seen(l, c, e.1 as int, h.next[c], h.out, wait);
    lemma_catch_up(l, c, e.1 as int, h.next[c], h.out);
    assert forall|d: int| 0 <= d < k implies #[trigger] seen_at(g, wait, l, d) by {
        assert(seen_at(h, wait, l, d));
        if d != c {
            lemma_seen_on(h, g, wait, l, d);
        } else {
            assert forall|i: int| block_start(l, c) <= i < g.next[c] implies #[trigger] covered(
                g.out,
                wait,
                l,
                i,
            ) by {
                if i < h.next[c] {
                    assert(covered(h.out, wait, l, i));
                    if hosts(h.out, l[i]) {
                        lemma_grown_hosts(h.out, g.out, l, l[i]);
                    }
                }
            }
        }
    }
}

proof fn lemma_columns_seen(h: Hydration, l: Seq<Pos>, k: int, cl: Seq<Pos>, a: int)
    requires
        by_constraint(l),
        seen(h, cl, l, k),
        0 <= a <= cl.len(),
        forall|b: int| 0 <= b < cl.len() ==> (#[trigger] cl[b]).0 < k,
    ensures
        seen(hydrate_columns(h, l, cl, a), cl, l, k),
    decreases a,
{
    if a > 0 {
        lemma_columns_seen(h, l, k, cl, a - 1);
        assert(cl.contains(cl[a - 1]));
        lemma_column_seen(hydrate_columns(h, l, cl, a - 1), l, k, cl, cl[a - 1]);
    }
}

proof fn lemma_clusters_seen(l: Seq<Pos>, t: Seq<Seq<Pos>>, k: int, n: int)
    requires
        by_constraint(l),
        0 <= k,
        0 <= n <= t.len(),
        constraints_known(t, k),
    ensures
        seen(hydrate_clusters(l, t, k, n), Seq::empty(), l, k),
    decreases n,
{
    let none = Seq::<Pos>::empty();
    if n <= 0 {
        let h = hydrate_clusters(l, t, k, n);
        assert forall|c: int| 0 <= c < k implies #[trigger] seen_at(h, none, l, c) by {
            lemma_block(l, c);
        }
    } else {
        lemma_clusters_seen(l, t, k, n - 1);
        let h0 = hydrate_clusters(l, t, k, n - 1);
        let cl = t[n - 1];
        assert forall|c: int| 0 <= c < k implies #[trigger] seen_at(h0, cl, l, c) by {
            assert(seen_at(h0, none, l, c));
            assert forall|i: int| block_start(l, c) <= i < h0.next[c] implies #[trigger] covered(
                h0.out,
                cl,
                l,
                i,
            ) by {
                assert(covered(h0.out, none, l, i));
            }
        }
        lemma_columns_seen(h0, l, k, cl, cl.len() as int);
        let h1 = hydrate_columns(h0, l, cl, cl.len() as int);
        let h = hydrate_clusters(l, t, k, n);
        assert forall|c: int| 0 <= c < k implies #[trigger] seen_at(h, none, l, c) by {
            assert(seen_at(h1, cl, l, c));
            assert forall|i: int| block_start(l, c) <= i < h.next[c] implies #[trigger] covered(
                h.out,
                none,
                l,
                i,
            ) by {
                assert(covered(h1.out, cl, l, i));
                if hosts(h1.out, l[i]) {
                    let x = choose|x: int| 0 <= x < h1.out.len() && (#[trigger] h1.out[x]).contains(l[i]);
                    assert(h.out[x] == h1.out[x]);
                } else {
                    assert(h.out[h1.out.len() as int] == cl);
                }
            }
        }
    }
}

proof fn lemma_rest_seen(h: Hydration, l: Seq<Pos>, k: int, c: int)
    requires
        by_constraint(l),
        seen(h, Seq::empty(), l, k),
        0 <= c <= k,
        k <= u32::MAX,
    ensures
        seen(hydrate_rest(h, l, c), Seq::empty(), l, k),
        forall|d: int| 0 <= d < c ==> (#[trigger] hydrate_rest(h, l, c).next[d]) == block_start(l, d + 1),
    decreases c,
{
    let none = Seq::<Pos>::empty();
    if c > 0 {
        lemma_rest_seen(h, l, k, c - 1);
        let g = hydrate_rest(h, l, c - 1);
        let f = hydrate_rest(h, l, c);
        assert(seen_at(g, none, l, c - 1));
        lemma_catch_up_seen(l, c - 1, 0x1_0000_0000, g.next[c - 1], g.out, none);
        lemma_catch_up(l, c - 1, 0x1_0000_0000, g.next[c - 1], g.out);
        assert forall|d: int| 0 <= d < k implies #[trigger] seen_at(f, none, l, d) by {
            assert(seen_at(g, none, l, d));
            if d != c - 1 {
                lemma_seen_on(g, f, none, l, d);
            } else {
                assert forall|i: int| block_start(l, d) <= i < f.next[d] implies #[trigger] covered(
                    f.out,
                    none,
                    l,
                    i,
                ) by {
                    if i < g.next[d] {
                        assert(covered(g.out, none, l, i));
                        if hosts(g.out, l[i]) {
                            lemma_grown_hosts(g.out, f.out, l, l[i]);
                        }
                    }
                }
            }
        }
    }
}

/// Where the labels stand by constraint and the trace names known constraints only, the
/// trace that is filled up holds every label of the known constraints.
pub proof fn lemma_hydrated_holds(l: Seq<Pos>, t: Seq<Seq<Pos>>, k: int, i: int)
    requires
        by_constraint(l),
        constraints_known(t, k),
        0 <= k <= u32::MAX,
        0 <= i < l.len(),
        l[i].0 < k,
    ensures
        hosts(hydrated(l, t, k), l[i]),
{
    let none = Seq::<Pos>::empty();
    lemma_clusters_seen(l, t, k, t.len() as int);
    let h = hydrate_clusters(l, t, k, t.len() as int);
    lemma_rest_seen(h, l, k, k);
    let f = hydrate_rest(h, l, k);
    let c = l[i].0 as int;
    lemma_block(l, c);
    assert(seen_at(f, none, l, c));
    assert(f.next[c] == block_start(l, c + 1));
    assert(covered(f.out, none, l, i));
}

/// The labels of a graph stand in the order of their nodes, and each lies in one of the
/// constraints.
pub proof fn lemma_labels_by_constraint(graph: Graph, counts: Seq<usize>)
    requires
        graph.wf(counts),
    ensures
        labels_rise(label_columns(graph)),
        by_constraint(label_columns(graph)),
        forall|i: int|
            0 <= i < label_columns(graph).len() ==> (#[trigger] label_columns(graph)[i]).0
                < counts.len(),
{
    let l = label_columns(graph);
    assert forall|i: int, j: int| 0 <= i < j < l.len() implies l[i].0 < l[j].0 || (l[i].0
        == l[j].0 && l[i].1 < l[j].1) by {
        let a = graph.labels@[i];
        let b = graph.labels@[j];
        assert(a < b);
        assert(a < graph.size && b < graph.size);
        let p = graph.node_pos@[a as int];
        let q = graph.node_pos@[b as int];
        crate::naive_upgma::lemma_node_order(counts, p, q);
    }
    assert forall|i: int| 0 <= i < l.len() implies (#[trigger] l[i]).0 < counts.len() by {
        let a = graph.labels@[i];
        assert(a < graph.size);
        let p = graph.node_pos@[a as int];
    }
}

/// The labels stand in the order of their nodes: by constraint, and within a constraint by
/// column.
pub open spec fn labels_rise(l: Seq<Pos>) -> bool {
    forall|i: int, j: int|
        0 <= i < j < l.len() ==> l[i].0 < l[j].0 || (l[i].0 == l[j].0 && l[i].1 < l[j].1)
}

/// No column stands in two clusters of the trace.
pub open spec fn clusters_apart(out: Seq<Seq<Pos>>) -> bool {
    forall|y: int, z: int, p: Pos|
        #![trigger out[y].contains(p), out[z].contains(p)]
        0 <= y < z < out.len() && out[y].contains(p) ==> !out[z].contains(p)
}

/// What the walk needs of the trace: its clusters are in order, none holds two columns of
/// one constraint, and all its constraints are known.
pub open spec fn walkable(t: Seq<Seq<Pos>>, k: int) -> bool {
    &&& crate::cluster::ordered(t)
    &&& forall|x: int| 0 <= x < t.len() ==> crate::cluster::distinct_constraints(#[trigger] t[x])
    &&& constraints_known(t, k)
}

/// Label `i` is a label of constraint `c` that the walk has not passed.
pub open spec fn ahead(next: Seq<int>, l: Seq<Pos>, c: int, i: int) -> bool {
    0 <= c < next.len() && next[c] <= i < block_start(l, c + 1)
}

/// Column `b` of cluster `x` has been dealt with when the walk stands at column `a` of
/// cluster `n`.
pub open spec fn dealt(t: Seq<Seq<Pos>>, n: int, a: int, x: int, b: int) -> bool {
    0 <= x < t.len() && 0 <= b < t[x].len() && (x < n || (x == n && b < a))
}

/// The walk stands within the labels of each constraint.
pub open spec fn in_blocks(next: Seq<int>, l: Seq<Pos>, k: int) -> bool {
    &&& next.len() == k
    &&& forall|c: int| 0 <= c < k ==> block_start(l, c) <= #[trigger] next[c] <= block_start(l, c + 1)
}

/// No label that the walk has not passed stands in the trace built so far.
pub open spec fn ahead_out(next: Seq<int>, out: Seq<Seq<Pos>>, l: Seq<Pos>) -> bool {
    forall|c: int, i: int| #[trigger] ahead(next, l, c, i) ==> !hosts(out, l[i])
}

/// Every label that the walk has not passed lies behind every column of its constraint that
/// has been dealt with.
pub open spec fn ahead_later(next: Seq<int>, l: Seq<Pos>, t: Seq<Seq<Pos>>, n: int, a: int) -> bool {
    forall|c: int, i: int, x: int, b: int|
        #[trigger] ahead(next, l, c, i) && #[trigger] dealt(t, n, a, x, b) && t[x][b].0 == c
            ==> l[i].1 > t[x][b].1
}

/// Every column of the trace built so far is a column of one of the first `n` clusters, or a
/// label that the trace given does not hold.
pub open spec fn out_known(out: Seq<Seq<Pos>>, l: Seq<Pos>, t: Seq<Seq<Pos>>, n: int) -> bool {
    forall|p: Pos| #[trigger] hosts(out, p) ==> hosts(t.take(n), p) || (l.contains(p) && !hosts(t, p))
}

/// What holds while the walk stands at column `a` of cluster `n`.
pub open spec fn walk_inv(h: Hydration, l: Seq<Pos>, t: Seq<Seq<Pos>>, k: int, n: int, a: int) -> bool {
    &&& in_blocks(h.next, l, k)
    &&& ahead_out(h.next, h.out, l)
    &&& ahead_later(h.next, l, t, n, a)
    &&& out_known(h.out, l, t, n)
    &&& clusters_apart(h.out)
}

proof fn lemma_blocks(l: Seq<Pos>, c: int, i: int, j: int)
    requires
        labels_rise(l),
        block_start(l, c) <= i <= j < block_start(l, c + 1),
    ensures
        0 <= i,
        j < l.len(),
        l[i].0 == c,
        l[j].0 == c,
        i < j ==> l[i].1 < l[j].1,
{
    assert(by_constraint(l));
    lemma_block(l, c);
}

proof fn lemma_take_hosts(t: Seq<Seq<Pos>>, n: int, p: Pos)
    requires
        0 <= n <= t.len(),
        hosts(t.take(n), p),
    ensures
        exists|x: int| 0 <= x < n && (#[trigger] t[x]).contains(p),
{
    let x = choose|x: int| 0 <= x < t.take(n).len() && (#[trigger] t.take(n)[x]).contains(p);
    assert(t[x] == t.take(n)[x]);
}

/// A label that the walk meets before the column it heads for is no column of the trace.
proof fn lemma_not_held(
    l: Seq<Pos>,
    t: Seq<Seq<Pos>>,
    k: int,
    n: int,
    a: int,
    col: int,
    next: Seq<int>,
    c: int,
    i: int,
)
    requires
        labels_rise(l),
        walkable(t, k),
        ahead_later(next, l, t, n, a),
        ahead(next, l, c, i),
        0 <= i < l.len(),
        l[i].0 == c,
        l[i].1 < col,
        (0 <= n < t.len() && 0 <= a < t[n].len() && t[n][a] == (c as u32, col as u32) && col
            <= u32::MAX) || (n == t.len() && a == 0),
    ensures
        !hosts(t, l[i]),
{
    if hosts(t, l[i]) {
        let x = choose|x: int| 0 <= x < t.len() && (#[trigger] t[x]).contains(l[i]);
        let b = choose|b: int| 0 <= b < t[x].len() && t[x][b] == l[i];
        if x < n {
            assert(dealt(t, n, a, x, b));
        } else if x == n {
            if b < a {
                assert(dealt(t, n, a, x, b));
            } else {
                assert(crate::cluster::distinct_constraints(t[n]));
                if a < b {
                    assert(t[n][a].0 != t[n][b].0);
                }
            }
        } else {
            assert(crate::cluster::strictly_before(t[n], t[x]));
            assert(t[n][a].0 == t[x][b].0);
        }
    }
}

proof fn lemma_catch_once(
    l: Seq<Pos>,
    t: Seq<Seq<Pos>>,
    k: int,
    n: int,
    a: int,
    c: int,
    col: int,
    h: Hydration,
)
    requires
        labels_rise(l),
        walkable(t, k),
        0 <= k <= u32::MAX,
        0 <= c < k,
        walk_inv(h, l, t, k, n, a),
        (0 <= n < t.len() && 0 <= a < t[n].len() && t[n][a] == (c as u32, col as u32) && 0 <= col
            <= u32::MAX) || (n == t.len() && a == 0 && col == 0x1_0000_0000),
    ensures
        ({
            let r = catch_up(l, c, col, h.next[c], h.out);
            let g = Hydration { next: h.next.update(c, r.0), out: r.1 };
            &&& walk_inv(g, l, t, k, n, a)
            &&& forall|i: int| #[trigger] ahead(g.next, l, c, i) ==> l[i].1 > col
        }),
    decreases l.len() - h.next[c],
{
    let at = h.next[c];
    let out = h.out;
    assert(by_constraint(l));
    lemma_block(l, c);
    let r = catch_up(l, c, col, at, out);
    let g = Hydration { next: h.next.update(c, r.0), out: r.1 };
    if 0 <= at < l.len() && l[at].0 == c && l[at].1 <= col {
        assert(ahead(h.next, l, c, at));
        let out2 = if l[at].1 < col {
            out.push(seq![l[at]])
        } else {
            out
        };
        let h2 = Hydration { next: h.next.update(c, at + 1), out: out2 };
        assert(walk_inv(h2, l, t, k, n, a)) by {
            assert forall|d: int, i: int| #[trigger] ahead(h2.next, l, d, i) implies ahead(
                h.next,
                l,
                d,
                i,
            ) && i != at by {
                if d != c {
                    assert(h2.next[d] == h.next[d]);
                    assert(block_start(l, d) <= h.next[d] <= block_start(l, d + 1));
                    lemma_block(l, d);
                    assert(l[i].0 == d);
                }
            }
            assert forall|d: int| 0 <= d < k implies block_start(l, d) <= #[trigger] h2.next[d]
                <= block_start(l, d + 1) by {
                assert(block_start(l, d) <= h.next[d] <= block_start(l, d + 1));
            }
            if l[at].1 < col {
                lemma_not_held(l, t, k, n, a, col, h.next, c, at);
                assert(!hosts(out, l[at]));
                let single = seq![l[at]];
                assert forall|p: Pos| single.contains(p) implies p == l[at] by {
                    let z = choose|z: int| 0 <= z < single.len() && single[z] == p;
                }
                assert forall|p: Pos| #[trigger] hosts(out2, p) implies hosts(out, p) || p
                    == l[at] by {
                    let y = choose|y: int| 0 <= y < out2.len() && (#[trigger] out2[y]).contains(p);
                    if y < out.len() {
                        assert(out[y] == out2[y]);
                    }
                }
                assert forall|d: int, i: int| #[trigger] ahead(h2.next, l, d, i) implies !hosts(
                    out2,
                    l[i],
                ) by {
                    assert(ahead(h.next, l, d, i) && i != at);
                    lemma_block(l, d);
                    if l[i] == l[at] {
                        if i < at {
                            assert(l[i].0 < l[at].0 || (l[i].0 == l[at].0 && l[i].1 < l[at].1));
                        } else {
                            assert(l[at].0 < l[i].0 || (l[at].0 == l[i].0 && l[at].1 < l[i].1));
                        }
                    }
                }
                assert forall|p: Pos| #[trigger] hosts(out2, p) implies hosts(t.take(n), p) || (
                l.contains(p) && !hosts(t, p)) by {
                    if hosts(out, p) {
                    }
                }
                assert forall|y: int, z: int, p: Pos|
                    #![trigger out2[y].contains(p), out2[z].contains(p)]
                    0 <= y < z < out2.len() && out2[y].contains(p) implies !out2[z].contains(p) by {
                    assert(out2[y] == out[y]);
                    if z < out.len() {
                        assert(out2[z] == out[z]);
                    } else {
                        if out2[z].contains(p) {
                            assert(hosts(out, p));
                        }
                    }
                }
            }
        }
        lemma_catch_once(l, t, k, n, a, c, col, h2);
        assert(h2.next.update(c, r.0) =~= h.next.update(c, r.0));
    } else {
        assert(g.next =~= h.next);
        assert forall|i: int| #[trigger] ahead(g.next, l, c, i) implies l[i].1 > col by {
            lemma_blocks(l, c, at, i);
        }
    }
}

proof fn lemma_columns_once(h: Hydration, l: Seq<Pos>, t: Seq<Seq<Pos>>, k: int, n: int, a: int)
    requires
        labels_rise(l),
        walkable(t, k),
        0 <= k <= u32::MAX,
        0 <= n < t.len(),
        0 <= a <= t[n].len(),
        walk_inv(h, l, t, k, n, 0),
    ensures
        walk_inv(hydrate_columns(h, l, t[n], a), l, t, k, n, a),
    decreases a,
{
    if a > 0 {
        lemma_columns_once(h, l, t, k, n, a - 1);
        let h0 = hydrate_columns(h, l, t[n], a - 1);
        let e = t[n][a - 1];
        let c = e.0 as int;
        lemma_catch_once(l, t, k, n, a - 1, c, e.1 as int, h0);
        let g = hydrate_column(h0, l, e);
        assert forall|d: int, i: int, x: int, b: int|
            #[trigger] ahead(g.next, l, d, i) && #[trigger] dealt(t, n, a, x, b) && t[x][b].0
                == d implies l[i].1 > t[x][b].1 by {
            if x == n && b == a - 1 {
            } else {
                assert(dealt(t, n, a - 1, x, b));
            }
        }
    }
}

proof fn lemma_clusters_once(l: Seq<Pos>, t: Seq<Seq<Pos>>, k: int, n: int)
    requires
        labels_rise(l),
        walkable(t, k),
        0 <= k <= u32::MAX,
        0 <= n <= t.len(),
    ensures
        walk_inv(hydrate_clusters(l, t, k, n), l, t, k, n, 0),
    decreases n,
{
    assert(by_constraint(l));
    if n <= 0 {
        let h = hydrate_clusters(l, t, k, n);
        assert forall|c: int| 0 <= c < k implies block_start(l, c) <= #[trigger] h.next[c]
            <= block_start(l, c + 1) by {
            lemma_block(l, c);
        }
    } else {
        lemma_clusters_once(l, t, k, n - 1);
        let h0 = hydrate_clusters(l, t, k, n - 1);
        let cl = t[n - 1];
        lemma_columns_once(h0, l, t, k, n - 1, cl.len() as int);
        let h1 = hydrate_columns(h0, l, cl, cl.len() as int);
        let h = hydrate_clusters(l, t, k, n);
        assert(h.next == h1.next && h.out == h1.out.push(cl));
        assert(t.take(n) =~= t.take(n - 1).push(cl));
        assert forall|p: Pos| #[trigger] hosts(h.out, p) implies hosts(h1.out, p) || cl.contains(
            p,
        ) by {
            let y = choose|y: int| 0 <= y < h.out.len() && (#[trigger] h.out[y]).contains(p);
            if y < h1.out.len() {
                assert(h1.out[y] == h.out[y]);
            }
        }
        assert forall|p: Pos| cl.contains(p) implies hosts(t.take(n), p) && hosts(t, p) by {
            assert(t.take(n)[n - 1].contains(p));
            assert(t[n - 1].contains(p));
        }
        assert forall|p: Pos| hosts(t.take(n - 1), p) implies hosts(t.take(n), p) by {
            lemma_take_hosts(t, n - 1, p);
            let x = choose|x: int| 0 <= x < n - 1 && (#[trigger] t[x]).contains(p);
            assert(t.take(n)[x].contains(p));
        }
        assert forall|d: int, i: int, x: int, b: int|
            #[trigger] ahead(h.next, l, d, i) && #[trigger] dealt(t, n, 0, x, b) && t[x][b].0
                == d implies l[i].1 > t[x][b].1 by {
            assert(dealt(t, n - 1, cl.len() as int, x, b));
        }
        assert forall|d: int, i: int| #[trigger] ahead(h.next, l, d, i) implies !hosts(
            h.out,
            l[i],
        ) by {
            assert(!hosts(h1.out, l[i]));
            if cl.contains(l[i]) {
                let b = choose|b: int| 0 <= b < cl.len() && cl[b] == l[i];
                assert(dealt(t, n - 1, cl.len() as int, n - 1, b));
                lemma_block(l, d);
            }
        }
        assert forall|y: int, z: int, p: Pos|
            #![trigger h.out[y].contains(p), h.out[z].contains(p)]
            0 <= y < z < h.out.len() && h.out[y].contains(p) implies !h.out[z].contains(p) by {
            assert(h.out[y] == h1.out[y]);
            if z < h1.out.len() {
                assert(h.out[z] == h1.out[z]);
            } else if cl.contains(p) {
                assert(hosts(h1.out, p));
                assert(hosts(t, p));
                lemma_take_hosts(t, n - 1, p);
                let x = choose|x: int| 0 <= x < n - 1 && (#[trigger] t[x]).contains(p);
                let u = choose|u: int| 0 <= u < t[x].len() && t[x][u] == p;
                let v = choose|v: int| 0 <= v < cl.len() && cl[v] == p;
                assert(crate::cluster::strictly_before(t[x], t[n - 1]));
                assert(t[x][u].0 == t[n - 1][v].0);
            }
        }
    }
}

proof fn lemma_rest_once(h: Hydration, l: Seq<Pos>, t: Seq<Seq<Pos>>, k: int, c: int)
    requires
        labels_rise(l),
        walkable(t, k),
        0 <= k <= u32::MAX,
        0 <= c <= k,
        walk_inv(h, l, t, k, t.len() as int, 0),
    ensures
        walk_inv(hydrate_rest(h, l, c), l, t, k, t.len() as int, 0),
    decreases c,
{
    if c > 0 {
        lemma_rest_once(h, l, t, k, c - 1);
        lemma_catch_once(l, t, k, t.len() as int, 0, c - 1, 0x1_0000_0000, hydrate_rest(h, l, c - 1));
    }
}

/// Where the labels stand in the order of their nodes and the trace is in order, with no
/// cluster holding two columns of one constraint, no column stands in two clusters of the
/// trace that is filled up: each label stands in it once, and the labels that stand alone
/// are those that the trace did not hold.
pub proof fn lemma_hydrated_once(l: Seq<Pos>, t: Seq<Seq<Pos>>, k: int)
    requires
        labels_rise(l),
        walkable(t, k),
        0 <= k <= u32::MAX,
    ensures
        clusters_apart(hydrated(l, t, k)),
        forall|p: Pos|
            #[trigger] hosts(hydrated(l, t, k), p) ==> hosts(t, p) || (l.contains(p) && !hosts(t, p)),
{
    lemma_clusters_once(l, t, k, t.len() as int);
    lemma_rest_once(hydrate_clusters(l, t, k, t.len() as int), l, t, k, k);
    assert(t.take(t.len() as int) =~= t);
}

} // verus!
