use vstd::prelude::*;
use crate::cluster::{
    distinct_constraints, holder, is_trace, node_of, offset, score_upto, strictly_before, together,
    Graph, Pos,
};
use crate::dp::{dp_choice, dp_value, is_weights, lemma_dp_bound};
use crate::exact_solver::{is_pair_below, lemma_sw_trace_shape, pair_cluster, pair_weights, sw_trace};
use crate::progressive::lemma_holder_range;
use crate::sims::{listed, Edge, WEIGHT_CAP};
use crate::sums::{
    grid_total, lemma_grid_point, lemma_grid_same, lemma_row_single, lemma_row_zero, row_total,
};

verus! {

/// One where the columns of the two nodes stand together in the trace, else none.
pub open spec fn together_count(t: Seq<Seq<Pos>>, pos: Seq<Pos>) -> spec_fn(int, int) -> int {
    |u: int, v: int|
        if together(t, pos[u], pos[v]) {
            1int
        } else {
            0int
        }
}

/// What the pair of nodes adds to the score of the trace.
pub open spec fn score_part(t: Seq<Seq<Pos>>, graph: Graph) -> spec_fn(int, int) -> int {
    |u: int, v: int| together_count(t, graph.node_pos@)(u, v) * graph.sims.weight_at(u, v)
}

proof fn lemma_score_listed(t: Seq<Seq<Pos>>, edges: Seq<Edge>, pos: Seq<Pos>, k: int)
    requires
        0 <= k <= edges.len(),
    ensures
        score_upto(t, edges, pos, k) == listed(edges, together_count(t, pos), k),
    decreases k,
{
    if k > 0 {
        lemma_score_listed(t, edges, pos, k - 1);
        let e = edges[k - 1];
        let c = together_count(t, pos);
        assert(c(e.u as int, e.v as int) * e.w == (if together(t, pos[e.u as int], pos[e.v as int]) {
            e.w as int
        } else {
            0
        })) by (nonlinear_arith)
            requires
                c(e.u as int, e.v as int) == (if together(t, pos[e.u as int], pos[e.v as int]) {
                    1int
                } else {
                    0int
                }),
        ;
    }
}

/// The score of a trace is the sum, over all pairs of nodes, of what the pair adds to it.
pub proof fn lemma_score_grid(graph: Graph, counts: Seq<usize>, t: Seq<Seq<Pos>>)
    requires
        graph.wf(counts),
    ensures
        graph.score_of(t) == grid_total(score_part(t, graph), graph.size as int, graph.size as int),
{
    let edges = graph.sims.edges@;
    lemma_score_listed(t, edges, graph.node_pos@, edges.len() as int);
    graph.sims.lemma_counted(together_count(t, graph.node_pos@), graph.size as int);
    let f = |u: int, v: int| together_count(t, graph.node_pos@)(u, v) * graph.sims.weight_at(u, v);
    assert forall|u: int, v: int| 0 <= u < graph.size && 0 <= v < graph.size implies #[trigger] f(
        u,
        v,
    ) == score_part(t, graph)(u, v) by {}
    lemma_grid_same(f, score_part(t, graph), graph.size as int, graph.size as int);
}

/// With two constraints, the nodes are the columns of the first and then those of the
/// second.
pub proof fn lemma_two_pos(graph: Graph, counts: Seq<usize>, id: int)
    requires
        graph.wf(counts),
        counts.len() == 2,
    ensures
        graph.size == counts[0] + counts[1],
        0 <= id < counts[0] ==> graph.node_pos@[id] == (0u32, id as u32),
        counts[0] <= id < graph.size ==> graph.node_pos@[id] == (
            1u32,
            (id - counts[0]) as u32,
        ),
{
    assert(offset(counts, 2) == offset(counts, 1) + counts[1]);
    assert(offset(counts, 1) == offset(counts, 0) + counts[0]);
    if 0 <= id < graph.size {
        let p = graph.node_pos@[id];
        assert(p.0 < 2 && p.1 < counts[p.0 as int] && node_of(counts, p) == id);
    }
}

proof fn lemma_holder_absent(t: Seq<Seq<Pos>>, p: Pos)
    requires
        forall|x: int| 0 <= x < t.len() ==> !(#[trigger] t[x]).contains(p),
    ensures
        holder(t, p) == -1,
    decreases t.len(),
{
    if t.len() > 0 {
        assert(!t[t.len() - 1].contains(p));
        let t0 = t.drop_last();
        assert forall|x: int| 0 <= x < t0.len() implies !(#[trigger] t0[x]).contains(p) by {
            assert(t0[x] == t[x]);
        }
        lemma_holder_absent(t0, p);
    }
}

/// A matched pair that joins a trace which holds neither of its two columns adds the weight
/// between the two to the score.
proof fn lemma_push_score(graph: Graph, counts: Seq<usize>, t: Seq<Seq<Pos>>, a: int, b: int)
    requires
        graph.wf(counts),
        counts.len() == 2,
        0 <= a < counts[0],
        0 <= b < counts[1],
        holder(t, (0u32, a as u32)) == -1,
        holder(t, (1u32, b as u32)) == -1,
    ensures
        graph.score_of(t.push(pair_cluster(a, b))) == graph.score_of(t) + graph.sims.weight(
            a as usize,
            (counts[0] + b) as usize,
        ),
{
    let n = counts[0] as int;
    let size = graph.size as int;
    let pos = graph.node_pos@;
    let c = pair_cluster(a, b);
    let t2 = t.push(c);
    let pa = (0u32, a as u32);
    let pb = (1u32, b as u32);
    lemma_two_pos(graph, counts, a);
    lemma_two_pos(graph, counts, n + b);
    lemma_score_grid(graph, counts, t);
    lemma_score_grid(graph, counts, t2);
    let f = score_part(t, graph);
    let f2 = score_part(t2, graph);
    let d = graph.sims.weight_at(a, n + b);
    assert(t2.drop_last() =~= t);
    assert(c.contains(pa)) by {
        assert(c[0] == pa);
    }
    assert(c.contains(pb)) by {
        assert(c[1] == pb);
    }
    assert forall|p: Pos| c.contains(p) implies p == pa || p == pb by {
        let x = choose|x: int| 0 <= x < c.len() && c[x] == p;
    }
    assert forall|u: int, v: int| 0 <= u < size && 0 <= v < size && !(u == a && v == n + b) implies #[trigger] f2(
        u,
        v,
    ) == f(u, v) by {
        lemma_two_pos(graph, counts, u);
        lemma_two_pos(graph, counts, v);
        let p = pos[u];
        let q = pos[v];
        lemma_holder_range(t, p);
        lemma_holder_range(t, q);
        if u == n + b && v == a {
            if graph.sims.has_edge(u as usize, v as usize) {
                graph.sims.lemma_one_direction(u as usize, v as usize);
            }
        } else {
            assert(together(t2, p, q) == together(t, p, q));
        }
    }
    assert(f2(a, n + b) == f(a, n + b) + d) by {
        assert(together(t2, pa, pb));
        assert(!together(t, pa, pb));
    }
    lemma_grid_point(f, f2, size, size, a, n + b, d);
}

proof fn lemma_score_empty(graph: Graph, k: int)
    ensures
        score_upto(Seq::<Seq<Pos>>::empty(), graph.sims.edges@, graph.node_pos@, k) == 0,
    decreases k,
{
    if k > 0 {
        lemma_score_empty(graph, k - 1);
    }
}

/// The score of the best alignment of two constraints is what the table of best weights
/// holds for it.
pub proof fn lemma_sw_score(graph: Graph, counts: Seq<usize>, i: int, j: int)
    requires
        graph.wf(counts),
        counts.len() == 2,
        0 <= i <= counts[0],
        0 <= j <= counts[1],
    ensures
        graph.score_of(
            sw_trace(pair_weights(graph.sims, counts[0] as int, counts[1] as int), i, j),
        ) == dp_value(pair_weights(graph.sims, counts[0] as int, counts[1] as int), false, i, j),
    decreases i + j,
{
    let n = counts[0] as int;
    let m = counts[1] as int;
    let w = pair_weights(graph.sims, n, m);
    if i <= 0 || j <= 0 {
        lemma_score_empty(graph, graph.sims.edges@.len() as int);
    } else {
        lemma_weights(graph, counts);
        lemma_dp_bound(w, false, n, m, i - 1, j - 1);
        lemma_dp_bound(w, false, n, m, i - 1, j);
        lemma_dp_bound(w, false, n, m, i, j - 1);
        let choice = dp_choice(w, false, i, j);
        if choice == 0 {
            lemma_sw_score(graph, counts, i - 1, j - 1);
            let t0 = sw_trace(w, i - 1, j - 1);
            lemma_two_pos(graph, counts, 0);
            lemma_sw_trace_shape(w, i - 1, j - 1);
            assert forall|x: int| 0 <= x < t0.len() implies !(#[trigger] t0[x]).contains(
                (0u32, (i - 1) as u32),
            ) && !t0[x].contains((1u32, (j - 1) as u32)) by {
                assert(is_pair_below(t0[x], i - 1, j - 1));
                if t0[x].contains((0u32, (i - 1) as u32)) {
                    let y = choose|y: int| 0 <= y < t0[x].len() && t0[x][y] == (0u32, (i - 1) as u32);
                }
                if t0[x].contains((1u32, (j - 1) as u32)) {
                    let y = choose|y: int| 0 <= y < t0[x].len() && t0[x][y] == (1u32, (j - 1) as u32);
                }
            }
            lemma_holder_absent(t0, (0u32, (i - 1) as u32));
            lemma_holder_absent(t0, (1u32, (j - 1) as u32));
            lemma_push_score(graph, counts, t0, i - 1, j - 1);
        } else if choice == 1 {
            lemma_sw_score(graph, counts, i - 1, j);
        } else {
            lemma_sw_score(graph, counts, i, j - 1);
        }
    }
}

/// The weights between the columns of two constraints are a table of weights.
pub proof fn lemma_weights(graph: Graph, counts: Seq<usize>)
    requires
        graph.wf(counts),
        counts.len() == 2,
    ensures
        is_weights(
            pair_weights(graph.sims, counts[0] as int, counts[1] as int),
            counts[0] as int,
            counts[1] as int,
        ),
{
    let n = counts[0] as int;
    let m = counts[1] as int;
    let w = pair_weights(graph.sims, n, m);
    assert forall|a: int, b: int| 0 <= a < n && 0 <= b < m implies #[trigger] w[a][b]
        <= WEIGHT_CAP by {
        graph.sims.lemma_weight_bound(a as usize, (n + b) as usize);
    }
}

/// The column of the second constraint that stands with column `a` of the first in the
/// trace, or -1 where none does.
pub open spec fn mate(t: Seq<Seq<Pos>>, a: int, m: int) -> int {
    if exists|b: int| 0 <= b < m && #[trigger] together(t, (0u32, a as u32), (1u32, b as u32)) {
        choose|b: int| 0 <= b < m && #[trigger] together(t, (0u32, a as u32), (1u32, b as u32))
    } else {
        -1
    }
}

/// What column `a` of the first constraint adds to the score: the weight to its mate, where
/// it has one below `j`.
pub open spec fn gain(t: Seq<Seq<Pos>>, w: Seq<Seq<u64>>, m: int, a: int, j: int) -> int {
    if 0 <= mate(t, a, m) < j {
        w[a][mate(t, a, m)] as int
    } else {
        0
    }
}

/// What the first `i` columns of the first constraint add to the score by mates below `j`.
pub open spec fn gains(t: Seq<Seq<Pos>>, w: Seq<Seq<u64>>, m: int, i: int, j: int) -> int
    decreases i,
{
    if i <= 0 {
        0
    } else {
        gains(t, w, m, i - 1, j) + gain(t, w, m, i - 1, j)
    }
}

/// Two columns of one constraint do not stand together in a trace.
proof fn lemma_apart(t: Seq<Seq<Pos>>, counts: Seq<usize>, p: Pos, q: Pos)
    requires
        is_trace(t, counts),
        p.0 == q.0,
    ensures
        !together(t, p, q),
{
    if together(t, p, q) {
        let x = holder(t, p);
        lemma_holder_range(t, p);
        lemma_holder_range(t, q);
        let i = choose|i: int| 0 <= i < t[x].len() && t[x][i] == p;
        let j = choose|j: int| 0 <= j < t[x].len() && t[x][j] == q;
        assert(distinct_constraints(t[x]));
        if i < j {
            assert(t[x][i].0 != t[x][j].0);
        } else if j < i {
            assert(t[x][j].0 != t[x][i].0);
        }
    }
}

/// A column of the first constraint stands with one column of the second at most, its mate.
proof fn lemma_mate(t: Seq<Seq<Pos>>, counts: Seq<usize>, a: int, b: int)
    requires
        is_trace(t, counts),
        counts.len() == 2,
        counts[1] <= u32::MAX,
        0 <= b < counts[1],
        together(t, (0u32, a as u32), (1u32, b as u32)),
    ensures
        mate(t, a, counts[1] as int) == b,
{
    let m = counts[1] as int;
    let b2 = mate(t, a, m);
    assert(0 <= b2 < m && together(t, (0u32, a as u32), (1u32, b2 as u32)));
    if b2 != b {
        let p = (1u32, b as u32);
        let q = (1u32, b2 as u32);
        assert(together(t, p, q));
        lemma_apart(t, counts, p, q);
    }
}

/// The mates of the columns of the first constraint rise with the columns.
proof fn lemma_mates_rise(t: Seq<Seq<Pos>>, counts: Seq<usize>, a1: int, a2: int)
    requires
        is_trace(t, counts),
        counts.len() == 2,
        counts[1] <= u32::MAX,
        0 <= a1 < a2 <= u32::MAX,
        mate(t, a1, counts[1] as int) >= 0,
        mate(t, a2, counts[1] as int) >= 0,
    ensures
        mate(t, a1, counts[1] as int) < mate(t, a2, counts[1] as int),
{
    let m = counts[1] as int;
    let b1 = mate(t, a1, m);
    let b2 = mate(t, a2, m);
    let p1 = (0u32, a1 as u32);
    let p2 = (0u32, a2 as u32);
    let q1 = (1u32, b1 as u32);
    let q2 = (1u32, b2 as u32);
    assert(together(t, p1, q1) && together(t, p2, q2));
    let x1 = holder(t, p1);
    let x2 = holder(t, p2);
    lemma_holder_range(t, p1);
    lemma_holder_range(t, p2);
    lemma_holder_range(t, q1);
    lemma_holder_range(t, q2);
    lemma_apart(t, counts, p1, p2);
    let i1 = choose|i: int| 0 <= i < t[x1].len() && t[x1][i] == p1;
    let j1 = choose|j: int| 0 <= j < t[x1].len() && t[x1][j] == q1;
    let i2 = choose|i: int| 0 <= i < t[x2].len() && t[x2][i] == p2;
    let j2 = choose|j: int| 0 <= j < t[x2].len() && t[x2][j] == q2;
    if x1 < x2 {
        assert(strictly_before(t[x1], t[x2]));
        assert(t[x1][j1].0 == t[x2][j2].0);
    } else {
        assert(x2 < x1);
        assert(strictly_before(t[x2], t[x1]));
        assert(t[x2][i2].0 == t[x1][i1].0);
    }
}

/// What a column of the first constraint adds to the score of a trace is the weight to its
/// mate.
proof fn lemma_row_gain(graph: Graph, counts: Seq<usize>, t: Seq<Seq<Pos>>, u: int)
    requires
        graph.wf(counts),
        counts.len() == 2,
        is_trace(t, counts),
        0 <= u < graph.size,
    ensures
        row_total(score_part(t, graph), u, graph.size as int) == (if u < counts[0] {
            gain(
                t,
                pair_weights(graph.sims, counts[0] as int, counts[1] as int),
                counts[1] as int,
                u,
                counts[1] as int,
            )
        } else {
            0
        }),
{
    let n = counts[0] as int;
    let m = counts[1] as int;
    let size = graph.size as int;
    let pos = graph.node_pos@;
    let f = score_part(t, graph);
    lemma_two_pos(graph, counts, u);
    if u < n {
        let b = mate(t, u, m);
        assert forall|v: int| 0 <= v < size && (b < 0 || v != n + b) implies #[trigger] f(u, v)
            == 0 by {
            lemma_two_pos(graph, counts, v);
            if v < n {
                lemma_apart(t, counts, pos[u], pos[v]);
            } else {
                if together(t, pos[u], pos[v]) {
                    lemma_mate(t, counts, u, v - n);
                }
            }
        }
        if b >= 0 {
            lemma_row_single(f, u, size, n + b);
            assert(together(t, (0u32, u as u32), (1u32, b as u32)));
            lemma_two_pos(graph, counts, n + b);
        } else {
            lemma_row_zero(f, u, size);
        }
    } else {
        assert forall|v: int| 0 <= v < size implies #[trigger] f(u, v) == 0 by {
            lemma_two_pos(graph, counts, v);
            if v <= u {
                if graph.sims.has_edge(u as usize, v as usize) {
                    graph.sims.lemma_one_direction(u as usize, v as usize);
                }
            } else {
                lemma_apart(t, counts, pos[u], pos[v]);
            }
        }
        lemma_row_zero(f, u, size);
    }
}

/// The score of a trace of two constraints is what the columns of the first gain by their
/// mates.
proof fn lemma_score_gains(graph: Graph, counts: Seq<usize>, t: Seq<Seq<Pos>>, i: int)
    requires
        graph.wf(counts),
        counts.len() == 2,
        is_trace(t, counts),
        0 <= i <= graph.size,
    ensures
        grid_total(score_part(t, graph), i, graph.size as int) == gains(
            t,
            pair_weights(graph.sims, counts[0] as int, counts[1] as int),
            counts[1] as int,
            if i < counts[0] {
                i
            } else {
                counts[0] as int
            },
            counts[1] as int,
        ),
    decreases i,
{
    if i > 0 {
        lemma_score_gains(graph, counts, t, i - 1);
        lemma_row_gain(graph, counts, t, i - 1);
    }
}

proof fn lemma_gains_same(
    t: Seq<Seq<Pos>>,
    counts: Seq<usize>,
    w: Seq<Seq<u64>>,
    i: int,
    j: int,
    b: int,
)
    requires
        0 <= b <= j,
        forall|a: int|
            0 <= a < i && mate(t, a, counts[1] as int) >= 0 ==> #[trigger] mate(
                t,
                a,
                counts[1] as int,
            ) < b,
    ensures
        gains(t, w, counts[1] as int, i, j) == gains(t, w, counts[1] as int, i, b),
    decreases i,
{
    if i > 0 {
        lemma_gains_same(t, counts, w, i - 1, j, b);
        let x = mate(t, i - 1, counts[1] as int);
    }
}

/// The best weight for more rows or more columns is no smaller.
proof fn lemma_dp_rises(w: Seq<Seq<u64>>, n: int, m: int, i: int, j: int, j2: int)
    requires
        is_weights(w, n, m),
        0 <= i <= n,
        0 <= j <= j2 <= m,
    ensures
        dp_value(w, false, i, j) <= dp_value(w, false, i, j2),
        i >= 1 ==> dp_value(w, false, i - 1, j) <= dp_value(w, false, i, j),
        i >= 1 && j >= 1 ==> dp_value(w, false, i - 1, j - 1) + w[i - 1][j - 1] <= dp_value(
            w,
            false,
            i,
            j,
        ),
    decreases j2 - j,
{
    lemma_dp_bound(w, false, n, m, i, j);
    if i >= 1 {
        lemma_dp_bound(w, false, n, m, i - 1, j);
    }
    if j < j2 {
        lemma_dp_rises(w, n, m, i, j, j2 - 1);
        lemma_dp_bound(w, false, n, m, i, j2 - 1);
        lemma_dp_bound(w, false, n, m, i, j2);
    }
}

/// No trace gains more by the mates of its columns than the table of best weights holds.
proof fn lemma_gains_bound(t: Seq<Seq<Pos>>, counts: Seq<usize>, w: Seq<Seq<u64>>, i: int, j: int)
    requires
        is_trace(t, counts),
        counts.len() == 2,
        counts[0] <= u32::MAX,
        counts[1] <= u32::MAX,
        is_weights(w, counts[0] as int, counts[1] as int),
        0 <= i <= counts[0],
        0 <= j <= counts[1],
    ensures
        gains(t, w, counts[1] as int, i, j) <= dp_value(w, false, i, j),
    decreases i,
{
    let n = counts[0] as int;
    let m = counts[1] as int;
    lemma_dp_bound(w, false, n, m, i, j);
    if i > 0 {
        let b = mate(t, i - 1, m);
        lemma_dp_rises(w, n, m, i, j, j);
        if 0 <= b < j {
            assert forall|a: int| 0 <= a < i - 1 && mate(t, a, m) >= 0 implies #[trigger] mate(
                t,
                a,
                m,
            ) < b by {
                lemma_mates_rise(t, counts, a, i - 1);
            }
            lemma_gains_same(t, counts, w, i - 1, j, b);
            lemma_gains_bound(t, counts, w, i - 1, b);
            lemma_dp_rises(w, n, m, i, b + 1, j);
            lemma_dp_rises(w, n, m, i, b + 1, b + 1);
        } else {
            lemma_gains_bound(t, counts, w, i - 1, j);
        }
    }
}

/// The best alignment of two constraints scores as high as any trace of the two.
pub proof fn lemma_exact_is_best(graph: Graph, counts: Seq<usize>, t: Seq<Seq<Pos>>)
    requires
        graph.wf(counts),
        counts.len() == 2,
        is_trace(t, counts),
    ensures
        graph.score_of(t) <= graph.score_of(
            sw_trace(
                pair_weights(graph.sims, counts[0] as int, counts[1] as int),
                counts[0] as int,
                counts[1] as int,
            ),
        ),
{
    let n = counts[0] as int;
    let m = counts[1] as int;
    let w = pair_weights(graph.sims, n, m);
    assert(offset(counts, 2) == offset(counts, 1) + counts[1]);
    assert(offset(counts, 1) == offset(counts, 0) + counts[0]);
    lemma_weights(graph, counts);
    lemma_sw_score(graph, counts, n, m);
    lemma_score_grid(graph, counts, t);
    lemma_score_gains(graph, counts, t, graph.size as int);
    lemma_gains_bound(t, counts, w, n, m);
}

} // verus!
