use vstd::prelude::*;
use crate::cluster::{
    cluster_in_range, distinct_constraints, is_sorted_trace, ordered, rows_of,
    sorted_by_constraint, strictly_before, ClusteringResult, Graph, Pos,
};
use crate::dp::{dp_choice, dp_fits, fill_tables, has_shape, is_weights, DIAGONAL, UP};
use crate::grid::{cells_of, grid_get, grid_set, grid_zeros, Grid};
use crate::sims::{Sims, WEIGHT_CAP};
use crate::state::AlnState;

verus! {

/// The weights between the columns of the first two constraints: row `a`, column `b` holds
/// the weight between column `a` of the first and column `b` of the second.
pub open spec fn pair_weights(sims: Sims, n: int, m: int) -> Seq<Seq<u64>> {
    Seq::new(
        n as nat,
        |a: int| Seq::new(m as nat, |b: int| sims.weight(a as usize, (n + b) as usize)),
    )
}

/// The match of column `a` of the first constraint with column `b` of the second.
pub open spec fn pair_cluster(a: int, b: int) -> Seq<Pos> {
    seq![(0u32, a as u32), (1u32, b as u32)]
}

/// The matches of the best alignment of the first `i` columns of the first constraint with
/// the first `j` of the second, in rising order.
pub open spec fn sw_trace(w: Seq<Seq<u64>>, i: int, j: int) -> Seq<Seq<Pos>>
    decreases i + j,
{
    if i <= 0 || j <= 0 {
        Seq::empty()
    } else if dp_choice(w, false, i, j) == 0 {
        sw_trace(w, i - 1, j - 1).push(pair_cluster(i - 1, j - 1))
    } else if dp_choice(w, false, i, j) == 1 {
        sw_trace(w, i - 1, j)
    } else {
        sw_trace(w, i, j - 1)
    }
}

/// The cluster matches a column below `i` of the first constraint with a column below `j`
/// of the second.
pub open spec fn is_pair_below(c: Seq<Pos>, i: int, j: int) -> bool {
    c.len() == 2 && c[0].0 == 0 && c[0].1 < i && c[1].0 == 1 && c[1].1 < j
}

/// Every cluster of the alignment matches a column below `i` with one below `j`, and the
/// clusters rise in both.
pub proof fn lemma_sw_trace_shape(w: Seq<Seq<u64>>, i: int, j: int)
    requires
        0 <= i <= u32::MAX,
        0 <= j <= u32::MAX,
    ensures
        forall|x: int|
            0 <= x < sw_trace(w, i, j).len() ==> is_pair_below(
                #[trigger] sw_trace(w, i, j)[x],
                i,
                j,
            ),
        ordered(sw_trace(w, i, j)),
    decreases i + j,
{
    let t = sw_trace(w, i, j);
    if i <= 0 || j <= 0 {
    } else if dp_choice(w, false, i, j) == 0 {
        lemma_sw_trace_shape(w, i - 1, j - 1);
        let t0 = sw_trace(w, i - 1, j - 1);
        assert forall|x: int| 0 <= x < t.len() implies is_pair_below(#[trigger] t[x], i, j) by {
            if x < t0.len() {
                assert(is_pair_below(t0[x], i - 1, j - 1));
            }
        }
        assert forall|x: int, y: int| 0 <= x < y < t.len() implies strictly_before(t[x], t[y]) by {
            if y < t0.len() {
                assert(strictly_before(t0[x], t0[y]));
            } else {
                assert(is_pair_below(t0[x], i - 1, j - 1));
                assert(t[y] == pair_cluster(i - 1, j - 1));
            }
        }
    } else if dp_choice(w, false, i, j) == 1 {
        lemma_sw_trace_shape(w, i - 1, j);
        let t0 = sw_trace(w, i - 1, j);
        assert forall|x: int| 0 <= x < t.len() implies is_pair_below(#[trigger] t[x], i, j) by {
            assert(is_pair_below(t0[x], i - 1, j));
        }
    } else {
        lemma_sw_trace_shape(w, i, j - 1);
        let t0 = sw_trace(w, i, j - 1);
        assert forall|x: int| 0 <= x < t.len() implies is_pair_below(#[trigger] t[x], i, j) by {
            assert(is_pair_below(t0[x], i, j - 1));
        }
    }
}

/// The best alignment of two constraints is a trace.
pub proof fn lemma_sw_trace_valid(w: Seq<Seq<u64>>, counts: Seq<usize>)
    requires
        counts.len() >= 2,
        counts[0] <= u32::MAX,
        counts[1] <= u32::MAX,
    ensures
        is_sorted_trace(sw_trace(w, counts[0] as int, counts[1] as int), counts),
{
    let n = counts[0] as int;
    let m = counts[1] as int;
    let t = sw_trace(w, n, m);
    lemma_sw_trace_shape(w, n, m);
    assert forall|x: int| 0 <= x < t.len() implies distinct_constraints(#[trigger] t[x])
        && cluster_in_range(t[x], counts) && sorted_by_constraint(t[x]) by {
        assert(is_pair_below(t[x], n, m));
    }
}

/// The weight between two nodes as the graph stores it, or zero.
pub fn weight_from_graph(graph: &Graph, i: usize, j: usize) -> (w: u64)
    requires
        graph.sims.wf(),
    ensures
        w == graph.sims.weight(i, j),
        w <= WEIGHT_CAP,
{
    graph.sims.get(i, j)
}

/// Whether an edge that starts at `edge_x` may follow a boundary: it lies at or past the
/// boundary in both constraints.
pub fn can_take(boundary: (u32, u32), edge_x: (u32, u32)) -> (ok: bool)
    ensures
        ok == (edge_x.0 >= boundary.0 && edge_x.1 >= boundary.1),
{
    if edge_x.0 >= boundary.0 && edge_x.1 >= boundary.1 {
        return true;
    }
    return false;
}

/// The clusters in the opposite order.
pub fn reversed(v: Vec<Vec<(u32, u32)>>) -> (out: Vec<Vec<(u32, u32)>>)
    ensures
        rows_of(out@) == rows_of(v@).reverse(),
{
    let mut v = v;
    let ghost orig = rows_of(v@);
    let mut out: Vec<Vec<(u32, u32)>> = Vec::new();
    assert(rows_of(out@) + rows_of(v@).reverse() =~= orig.reverse());
    while v.len() > 0
        invariant
            rows_of(out@) + rows_of(v@).reverse() == orig.reverse(),
        decreases v.len(),
    {
        let ghost v0 = rows_of(v@);
        let ghost o0 = rows_of(out@);
        let c = v.pop().unwrap();
        out.push(c);
        proof {
            assert(rows_of(v@) =~= v0.drop_last());
            assert(rows_of(out@) =~= o0.push(v0.last()));
            assert(rows_of(out@) + rows_of(v@).reverse() =~= o0 + v0.reverse());
        }
    }
    assert(rows_of(out@) + rows_of(v@).reverse() =~= rows_of(out@));
    out
}

/// The table of weights between the columns of the first two constraints.
fn pair_weight_table(graph: &Graph, n: usize, m: usize) -> (w: Grid)
    requires
        graph.sims.wf(),
        dp_fits(n as int, m as int),
    ensures
        cells_of(w) == pair_weights(graph.sims, n as int, m as int),
        is_weights(cells_of(w), n as int, m as int),
{
    assert(n * m * 8 <= (n + 1) * (m + 1) * 8 && n + m <= (n + 1) * (m + 1)) by (nonlinear_arith)
        requires
            n >= 0,
            m >= 0,
    ;
    let mut w = grid_zeros(n, m);
    let ghost target = pair_weights(graph.sims, n as int, m as int);
    let mut a: usize = 0;
    while a < n
        invariant
            a <= n,
            graph.sims.wf(),
            n + m <= isize::MAX,
            target == pair_weights(graph.sims, n as int, m as int),
            has_shape(cells_of(w), n as int, m as int),
            forall|x: int, y: int| 0 <= x < a && 0 <= y < m ==> cells_of(w)[x][y] == target[x][y],
        decreases n - a,
    {
        let mut b: usize = 0;
        while b < m
            invariant
                a < n,
                b <= m,
                graph.sims.wf(),
                n + m <= isize::MAX,
                target == pair_weights(graph.sims, n as int, m as int),
                has_shape(cells_of(w), n as int, m as int),
                forall|x: int, y: int|
                    0 <= x <= a && 0 <= y < m && (x < a || y < b) ==> cells_of(w)[x][y]
                        == target[x][y],
            decreases m - b,
        {
            let ghost w0 = cells_of(w);
            let v = weight_from_graph(graph, a, n + b);
            grid_set(&mut w, a, b, v);
            proof {
                assert forall|x: int, y: int|
                    0 <= x <= a && 0 <= y < m && (x < a || y < b + 1) implies cells_of(w)[x][y]
                    == target[x][y] by {
                    if x == a && y == b {
                    } else {
                        assert(cells_of(w)[x][y] == w0[x][y]);
                    }
                }
            }
            b += 1;
        }
        a += 1;
    }
    proof {
        assert forall|x: int| 0 <= x < n implies cells_of(w)[x] == target[x] by {
            assert(cells_of(w)[x] =~= target[x]);
        }
        assert(cells_of(w) =~= target);
        assert forall|x: int, y: int| 0 <= x < n && 0 <= y < m implies #[trigger] target[x][y]
            <= WEIGHT_CAP by {
            graph.sims.lemma_weight_bound(x as usize, (n + y) as usize);
        }
    }
    w
}

/// The best alignment of the first two constraints: a trace of matched pairs of columns
/// whose weights add up to the most that any such trace can have.
pub fn sw_algorithm(graph: &Graph, state: &AlnState) -> (r: ClusteringResult)
    requires
        graph.sims.wf(),
        state.column_counts@.len() >= 2,
        dp_fits(state.column_counts@[0] as int, state.column_counts@[1] as int),
    ensures
        r@ == sw_trace(
            pair_weights(
                graph.sims,
                state.column_counts@[0] as int,
                state.column_counts@[1] as int,
            ),
            state.column_counts@[0] as int,
            state.column_counts@[1] as int,
        ),
        is_sorted_trace(r@, state.column_counts@),
        r.mwt_am == 0,
{
    let n = state.column_counts[0];
    let m = state.column_counts[1];
    let w = pair_weight_table(graph, n, m);
    let ghost ws = cells_of(w);
    let (_s, back) = fill_tables(&w, n, m, false);
    let mut matches: Vec<Vec<(u32, u32)>> = Vec::new();
    let mut i: usize = n;
    let mut j: usize = m;
    assert(sw_trace(ws, n as int, m as int) + rows_of(matches@).reverse() =~= sw_trace(
        ws,
        n as int,
        m as int,
    ));
    while i > 0 && j > 0
        invariant
            i <= n,
            j <= m,
            n <= u32::MAX,
            m <= u32::MAX,
            has_shape(cells_of(back), n + 1, m + 1),
            forall|a: int, b: int|
                0 <= a <= n && 0 <= b <= m ==> #[trigger] cells_of(back)[a][b] == dp_choice(
                    ws,
                    false,
                    a,
                    b,
                ),
            sw_trace(ws, n as int, m as int) == sw_trace(ws, i as int, j as int) + rows_of(
                matches@,
            ).reverse(),
        decreases i + j,
    {
        let pt = grid_get(&back, i, j);
        let ghost before = rows_of(matches@);
        let ghost i0 = i as int;
        let ghost j0 = j as int;
        if pt == DIAGONAL {
            i -= 1;
            j -= 1;
            let mut pair: Vec<(u32, u32)> = Vec::new();
            pair.push((0, i as u32));
            pair.push((1, j as u32));
            assert(pair@ =~= pair_cluster(i as int, j as int));
            matches.push(pair);
            proof {
                let c = pair_cluster(i as int, j as int);
                assert(rows_of(matches@) =~= before.push(c));
                assert(before.push(c).reverse() =~= seq![c] + before.reverse());
                assert(sw_trace(ws, i0, j0) == sw_trace(ws, i as int, j as int).push(c));
                assert(sw_trace(ws, i as int, j as int).push(c) + before.reverse() =~= sw_trace(
                    ws,
                    i as int,
                    j as int,
                ) + (seq![c] + before.reverse()));
            }
        } else if pt == UP {
            i -= 1;
        } else {
            j -= 1;
        }
    }
    let out = reversed(matches);
    proof {
        assert(rows_of(matches@).reverse().reverse() =~= rows_of(matches@));
        assert(sw_trace(ws, i as int, j as int) =~= Seq::<Seq<Pos>>::empty());
        assert(rows_of(out@) =~= sw_trace(ws, n as int, m as int));
        lemma_sw_trace_valid(ws, state.column_counts@);
    }
    ClusteringResult::new(out)
}

} // verus!
