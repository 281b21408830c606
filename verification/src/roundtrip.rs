use vstd::prelude::*;
use crate::aln::Record;
use crate::cluster::{
    cluster_in_range, holder, is_trace, node_of, score_upto, together, Graph, Pos,
};
use crate::merge::{
    clean_before, comes_before, coord_at, coords_of, coords_upto, count_in, factor_of,
    glue_clean_before, glue_fault, glue_weight, glue_width, graph_weight, holds_rows, is_row,
    lemma_residues_rise, named_before, residues_upto, row_clean, row_held, row_matches,
    rows_before, stands_at, width_of,
};
use crate::scorer::{column_used, in_column, is_column_cluster, used_columns};
use crate::sims::Edge;
use crate::state::AlnState;
use crate::weave::{gaps, is_gap, lemma_prefix_width, prefix_width, woven, woven_prefix};
use crate::frames::{
    add_last, after_trace, balanced, cluster_step, column_in, columns, flush_step, flushed,
    frames_of, has_constraint, lead_in, lead_ins, lemma_after_trace, lemma_lead_ins,
    lemma_singletons, pending, progress, reached, row_sum, row_width, zeros, Schedule,
};

verus! {

/// The merged column in which column `col` of a constraint stands: the gaps before it and
/// before the columns before it, and those columns.
pub open spec fn col_index(frame: Seq<nat>, col: int) -> int {
    row_sum(frame.take(col + 1)) + col
}

/// Every row has one entry more than columns placed.
pub open spec fn shaped(st: Schedule) -> bool {
    &&& st.frames.len() == st.placed.len()
    &&& forall|j: int| 0 <= j < st.placed.len() ==> (#[trigger] st.frames[j]).len() == st.placed[j] + 1
}

/// Column `col` of constraint `k` is placed, in merged column `at`.
pub open spec fn settled(st: Schedule, k: int, col: int, at: int) -> bool {
    0 <= k < st.placed.len() && 0 <= col < st.placed[k] && col_index(st.frames[k], col) == at
}

/// The columns of each of the first `n` clusters stand in one merged column, that of the
/// cluster.
pub open spec fn aligned(st: Schedule, t: Seq<Seq<Pos>>, n: int, w: Seq<int>) -> bool {
    &&& w.len() >= n
    &&& forall|x: int, a: int|
        0 <= x < n && 0 <= a < t[x].len() ==> settled(
            st,
            (#[trigger] t[x][a]).0 as int,
            t[x][a].1 as int,
            w[x],
        )
}

/// What stands before the last entry of a row is not touched when gaps are added at its end,
/// nor when entries are added to it.
proof fn lemma_index_kept(frame: Seq<nat>, after: Seq<nat>, col: int)
    requires
        0 <= col,
        col + 1 < frame.len(),
        after.len() >= frame.len(),
        forall|i: int| 0 <= i < frame.len() - 1 ==> after[i] == frame[i],
    ensures
        col_index(after, col) == col_index(frame, col),
{
    assert(after.take(col + 1) =~= frame.take(col + 1));
}

/// A step that leaves the rows as long or longer, and what stands before their last entries
/// as it was, keeps the columns placed where they stand.
proof fn lemma_settled_kept(st: Schedule, st2: Schedule, k: int, col: int, at: int)
    requires
        shaped(st),
        settled(st, k, col, at),
        st2.placed.len() == st.placed.len(),
        st2.frames.len() == st.frames.len(),
        st2.placed[k] >= st.placed[k],
        st2.frames[k].len() >= st.frames[k].len(),
        forall|i: int| 0 <= i < st.frames[k].len() - 1 ==> st2.frames[k][i] == st.frames[k][i],
    ensures
        settled(st2, k, col, at),
{
    assert(st.frames[k].len() == st.placed[k] + 1);
    lemma_index_kept(st.frames[k], st2.frames[k], col);
}

/// What a step of the three kinds does to the rows.
pub open spec fn grows(st: Schedule, st2: Schedule) -> bool {
    &&& st2.placed.len() == st.placed.len()
    &&& st2.frames.len() == st.frames.len()
    &&& forall|k: int|
        0 <= k < st.placed.len() ==> st2.placed[k] >= st.placed[k] && (#[trigger] st2.frames[k]).len()
            >= st.frames[k].len() && forall|i: int|
            0 <= i < st.frames[k].len() - 1 ==> st2.frames[k][i] == st.frames[k][i]
}

proof fn lemma_grows_lead_in(st: Schedule, cl: Seq<Pos>, c: int)
    requires
        shaped(st),
        0 <= c < st.placed.len(),
    ensures
        shaped(lead_in(st, cl, c)),
        grows(st, lead_in(st, cl, c)),
{
    let st2 = lead_in(st, cl, c);
    if has_constraint(cl, c) {
        let s = pending(st.placed[c], column_in(cl, c));
        assert forall|k: int| 0 <= k < st.placed.len() implies st2.placed[k] >= st.placed[k] && (
        #[trigger] st2.frames[k]).len() >= st.frames[k].len() && st2.frames[k].len()
            == st2.placed[k] + 1 && forall|i: int|
            0 <= i < st.frames[k].len() - 1 ==> st2.frames[k][i] == st.frames[k][i] by {
            assert(st.frames[k].len() == st.placed[k] + 1);
            if k == c {
                assert(st2.frames[k] == st.frames[k] + zeros(s));
            } else {
                assert(st2.frames[k] == add_last(st.frames[k], s));
            }
        }
    }
}

proof fn lemma_grows_cluster_step(st: Schedule, cl: Seq<Pos>, c: int)
    requires
        shaped(st),
        0 <= c < st.placed.len(),
    ensures
        shaped(cluster_step(st, cl, c)),
        grows(st, cluster_step(st, cl, c)),
{
    let st2 = cluster_step(st, cl, c);
    assert forall|k: int| 0 <= k < st.placed.len() implies st2.placed[k] >= st.placed[k] && (
    #[trigger] st2.frames[k]).len() >= st.frames[k].len() && st2.frames[k].len() == st2.placed[k]
        + 1 && forall|i: int|
        0 <= i < st.frames[k].len() - 1 ==> st2.frames[k][i] == st.frames[k][i] by {
        assert(st.frames[k].len() == st.placed[k] + 1);
        if k == c {
            if has_constraint(cl, c) {
                assert(st2.frames[k] == st.frames[k].push(0));
            } else {
                assert(st2.frames[k] == add_last(st.frames[k], 1));
            }
        } else {
            assert(st2.frames[k] == st.frames[k]);
        }
    }
}

proof fn lemma_grows_flush_step(st: Schedule, counts: Seq<usize>, c: int)
    requires
        shaped(st),
        0 <= c < st.placed.len(),
        st.placed.len() == counts.len(),
        st.placed[c] <= counts[c],
    ensures
        shaped(flush_step(st, counts, c)),
        grows(st, flush_step(st, counts, c)),
{
    let st2 = flush_step(st, counts, c);
    let s = pending(st.placed[c], counts[c] as int);
    assert forall|k: int| 0 <= k < st.placed.len() implies st2.placed[k] >= st.placed[k] && (
    #[trigger] st2.frames[k]).len() >= st.frames[k].len() && st2.frames[k].len() == st2.placed[k]
        + 1 && forall|i: int|
        0 <= i < st.frames[k].len() - 1 ==> st2.frames[k][i] == st.frames[k][i] by {
        assert(st.frames[k].len() == st.placed[k] + 1);
        if k == c {
            assert(st2.frames[k] == st.frames[k] + zeros(s));
        } else {
            assert(st2.frames[k] == add_last(st.frames[k], s));
        }
    }
}

/// Rows that only grow keep the clusters aligned.
proof fn lemma_aligned_kept(st: Schedule, st2: Schedule, t: Seq<Seq<Pos>>, n: int, w: Seq<int>)
    requires
        shaped(st),
        grows(st, st2),
        aligned(st, t, n, w),
    ensures
        aligned(st2, t, n, w),
{
    assert forall|x: int, a: int| 0 <= x < n && 0 <= a < t[x].len() implies settled(
        st2,
        (#[trigger] t[x][a]).0 as int,
        t[x][a].1 as int,
        w[x],
    ) by {
        let k = t[x][a].0 as int;
        assert(settled(st, k, t[x][a].1 as int, w[x]));
        assert(st2.frames[k].len() >= st.frames[k].len());
        lemma_settled_kept(st, st2, k, t[x][a].1 as int, w[x]);
    }
}

proof fn lemma_aligned_lead_ins(
    st: Schedule,
    cl: Seq<Pos>,
    c: int,
    k: int,
    t: Seq<Seq<Pos>>,
    n: int,
    w: Seq<int>,
)
    requires
        shaped(st),
        st.placed.len() == k,
        0 <= c <= k,
        aligned(st, t, n, w),
    ensures
        shaped(lead_ins(st, cl, c, k)),
        lead_ins(st, cl, c, k).placed.len() == k,
        aligned(lead_ins(st, cl, c, k), t, n, w),
    decreases k - c,
{
    if c < k {
        lemma_grows_lead_in(st, cl, c);
        lemma_aligned_kept(st, lead_in(st, cl, c), t, n, w);
        lemma_aligned_lead_ins(lead_in(st, cl, c), cl, c + 1, k, t, n, w);
    }
}

/// While the constraints deal with the merged column of a cluster, those that are through
/// have their column in that merged column, and the others have not changed.
pub open spec fn column_state(st: Schedule, st1: Schedule, cl: Seq<Pos>, c: int, at: int) -> bool {
    forall|a: int|
        0 <= a < cl.len() ==> {
            let k = (#[trigger] cl[a]).0 as int;
            let col = cl[a].1 as int;
            if k < c {
                settled(st, k, col, at)
            } else {
                st.frames[k] == st1.frames[k] && st.placed[k] == st1.placed[k]
            }
        }
}

proof fn lemma_aligned_columns(
    st: Schedule,
    st1: Schedule,
    cl: Seq<Pos>,
    c: int,
    k: int,
    t: Seq<Seq<Pos>>,
    n: int,
    w: Seq<int>,
    at: int,
)
    requires
        shaped(st),
        st.placed.len() == k,
        0 <= c <= k,
        aligned(st, t, n, w),
        crate::cluster::distinct_constraints(cl),
        forall|a: int| 0 <= a < cl.len() ==> (#[trigger] cl[a]).0 < k,
        column_state(st, st1, cl, c, at),
        st1.placed.len() == k,
        shaped(st1),
        forall|a: int|
            0 <= a < cl.len() ==> st1.placed[(#[trigger] cl[a]).0 as int] == cl[a].1 && row_width(
                st1.frames[cl[a].0 as int],
            ) == at,
    ensures
        shaped(columns(st, cl, c, k)),
        columns(st, cl, c, k).placed.len() == k,
        aligned(columns(st, cl, c, k), t, n, w),
        column_state(columns(st, cl, c, k), st1, cl, k, at),
    decreases k - c,
{
    if c < k {
        let st2 = cluster_step(st, cl, c);
        lemma_grows_cluster_step(st, cl, c);
        lemma_aligned_kept(st, st2, t, n, w);
        assert forall|a: int| 0 <= a < cl.len() implies {
            let kk = (#[trigger] cl[a]).0 as int;
            let col = cl[a].1 as int;
            if kk < c + 1 {
                settled(st2, kk, col, at)
            } else {
                st2.frames[kk] == st1.frames[kk] && st2.placed[kk] == st1.placed[kk]
            }
        } by {
            let kk = cl[a].0 as int;
            let col = cl[a].1 as int;
            if kk < c {
                assert(settled(st, kk, col, at));
                assert(st2.frames[kk].len() >= st.frames[kk].len());
                lemma_settled_kept(st, st2, kk, col, at);
            } else if kk == c {
                // the column is pushed behind the row as the first phase left it
                assert(has_constraint(cl, c));
                assert(st.frames[kk] == st1.frames[kk] && st.placed[kk] == st1.placed[kk]);
                assert(st1.frames[kk].len() == st1.placed[kk] + 1);
                assert(st2.frames[kk] == st.frames[kk].push(0));
                assert(st2.frames[kk].take(col + 1) =~= st.frames[kk]);
                assert(st2.placed[kk] == col + 1);
            } else {
                assert(st2.frames[kk] == st.frames[kk]);
            }
        }
        lemma_aligned_columns(st2, st1, cl, c + 1, k, t, n, w, at);
    }
}

/// The clusters of a trace stand each in one merged column: the schedule after the first `n`
/// clusters has their columns aligned.
proof fn lemma_aligned_trace(t: Seq<Seq<Pos>>, counts: Seq<usize>, n: int) -> (r: (int, Seq<int>))
    requires
        is_trace(t, counts),
        0 <= n <= t.len(),
    ensures
        balanced(after_trace(t.take(n), counts.len()), counts, 0, r.0, n),
        reached(after_trace(t.take(n), counts.len()).placed, t, n),
        shaped(after_trace(t.take(n), counts.len())),
        aligned(after_trace(t.take(n), counts.len()), t, n, r.1),
        r.1.len() == n,
        forall|x: int| 0 <= x < n ==> #[trigger] r.1[x] < r.0,
        forall|x: int, y: int| 0 <= x < y < n ==> r.1[x] < r.1[y],
    decreases n,
{
    let k = counts.len() as int;
    if n == 0 {
        let w = lemma_after_trace(t, counts, 0);
        (w, Seq::empty())
    } else {
        let (w0, ws) = lemma_aligned_trace(t, counts, n - 1);
        assert(t.take(n).drop_last() =~= t.take(n - 1));
        assert(t.take(n).last() == t[n - 1]);
        let st = after_trace(t.take(n - 1), counts.len());
        let cl = t[n - 1];
        assert(progress(st.placed, st.placed, cl, 0, 0));
        let w1 = lemma_lead_ins(st, st.placed, t, counts, n - 1, 0, w0);
        let st1 = lead_ins(st, cl, 0, k);
        lemma_aligned_lead_ins(st, cl, 0, k, t, n - 1, ws);
        assert(cluster_in_range(cl, counts));
        assert forall|a: int| 0 <= a < cl.len() implies st1.placed[(#[trigger] cl[a]).0 as int]
            == cl[a].1 && row_width(st1.frames[cl[a].0 as int]) == w1 by {
            let kk = cl[a].0 as int;
            assert(has_constraint(cl, kk));
            lemma_column_of(cl, a);
            assert(st1.placed[kk] == column_in(cl, kk));
            assert(row_width(st1.frames[kk]) == w1);
        }
        crate::frames::lemma_columns(st1, st.placed, t, counts, n - 1, 0, w1);
        lemma_aligned_columns(st1, st1, cl, 0, k, t, n - 1, ws, w1);
        let st2 = columns(st1, cl, 0, k);
        crate::frames::lemma_cluster_done(st2, st.placed, t, counts, n - 1, w1);
        let ws2 = ws.push(w1);
        assert forall|x: int| 0 <= x < n implies #[trigger] ws2[x] < w1 + 1 by {
            if x < n - 1 {
                assert(ws[x] < w0);
            }
        }
        assert forall|x: int, y: int| 0 <= x < y < n implies ws2[x] < ws2[y] by {
            assert(ws[x] < w0);
            if y < n - 1 {
                assert(ws[x] < ws[y]);
            }
        }
        assert forall|x: int, a: int| 0 <= x < n && 0 <= a < t[x].len() implies settled(
            st2,
            (#[trigger] t[x][a]).0 as int,
            t[x][a].1 as int,
            ws2[x],
        ) by {
            if x < n - 1 {
                assert(settled(st2, t[x][a].0 as int, t[x][a].1 as int, ws[x]));
            }
        }
        (w1 + 1, ws2)
    }
}

/// In a cluster whose constraints differ, the column of the constraint of a member is the
/// member's.
pub proof fn lemma_column_of(cl: Seq<Pos>, a: int)
    requires
        crate::cluster::distinct_constraints(cl),
        0 <= a < cl.len(),
    ensures
        has_constraint(cl, cl[a].0 as int),
        column_in(cl, cl[a].0 as int) == cl[a].1,
{
    let c = cl[a].0 as int;
    let i = choose|i: int| 0 <= i < cl.len() && (#[trigger] cl[i]).0 == c;
    if i < a {
        assert(cl[i].0 != cl[a].0);
    } else if a < i {
        assert(cl[a].0 != cl[i].0);
    }
}

proof fn lemma_aligned_flushed(
    st: Schedule,
    counts: Seq<usize>,
    c: int,
    t: Seq<Seq<Pos>>,
    n: int,
    w: Seq<int>,
    width: int,
    done: int,
)
    requires
        0 <= c <= counts.len(),
        balanced(st, counts, 0, width, done),
        shaped(st),
        aligned(st, t, n, w),
    ensures
        aligned(flushed(st, counts, c), t, n, w),
    decreases counts.len() - c,
{
    if c < counts.len() {
        assert(st.frames[c].len() == st.placed[c] + 1);
        lemma_grows_flush_step(st, counts, c);
        lemma_aligned_kept(st, flush_step(st, counts, c), t, n, w);
        lemma_singletons(st, counts, c, 0, width, done, counts[c] as int);
        lemma_aligned_flushed(
            flush_step(st, counts, c),
            counts,
            c + 1,
            t,
            n,
            w,
            width + pending(st.placed[c], counts[c] as int),
            done,
        );
    }
}

/// In the frames of a trace, the columns of a cluster stand in one merged column.
pub proof fn lemma_clusters_aligned(t: Seq<Seq<Pos>>, counts: Seq<usize>) -> (w: Seq<int>)
    requires
        is_trace(t, counts),
    ensures
        w.len() == t.len(),
        forall|x: int, a: int|
            0 <= x < t.len() && 0 <= a < t[x].len() ==> col_index(
                frames_of(t, counts)[(#[trigger] t[x][a]).0 as int],
                t[x][a].1 as int,
            ) == w[x],
        forall|x: int, y: int| 0 <= x < y < t.len() ==> w[x] < w[y],
{
    let (width, ws) = lemma_aligned_trace(t, counts, t.len() as int);
    assert(t.take(t.len() as int) =~= t);
    let st = after_trace(t, counts.len());
    lemma_aligned_flushed(st, counts, 0, t, t.len() as int, ws, width, t.len() as int);
    let fin = flushed(st, counts, 0);
    assert forall|x: int, a: int| 0 <= x < t.len() && 0 <= a < t[x].len() implies col_index(
        frames_of(t, counts)[(#[trigger] t[x][a]).0 as int],
        t[x][a].1 as int,
    ) == ws[x] by {
        assert(settled(fin, t[x][a].0 as int, t[x][a].1 as int, ws[x]));
    }
    ws
}


proof fn lemma_col_index(frame: Seq<nat>, col: int)
    requires
        0 <= col < frame.len(),
    ensures
        col_index(frame, col) == prefix_width(frame, col) + frame[col],
        col_index(frame, col) + 1 == prefix_width(frame, col + 1),
{
    lemma_prefix_width(frame, col);
    lemma_prefix_width(frame, col + 1);
    assert(frame.take(col + 1).drop_last() =~= frame.take(col));
}

proof fn lemma_prefix_width_rises(frame: Seq<nat>, a: int, b: int)
    requires
        0 <= a <= b,
    ensures
        0 <= prefix_width(frame, a) <= prefix_width(frame, b),
        b - a <= prefix_width(frame, b) - prefix_width(frame, a),
    decreases b,
{
    if a < b {
        lemma_prefix_width_rises(frame, a, b - 1);
    } else {
        if a > 0 {
            lemma_prefix_width_rises(frame, a - 1, a - 1);
        }
    }
}

proof fn lemma_residues_prefix(a: Seq<u8>, b: Seq<u8>, j: int)
    requires
        0 <= j <= a.len(),
    ensures
        residues_upto(a + b, j) == residues_upto(a, j),
    decreases j,
{
    if j > 0 {
        lemma_residues_prefix(a, b, j - 1);
        assert((a + b)[j - 1] == a[j - 1]);
    }
}

proof fn lemma_residues_suffix(a: Seq<u8>, b: Seq<u8>, j: int)
    requires
        0 <= j <= b.len(),
    ensures
        residues_upto(a + b, a.len() + j) == residues_upto(a, a.len() as int) + residues_upto(b, j),
    decreases j,
{
    if j > 0 {
        lemma_residues_suffix(a, b, j - 1);
        assert((a + b)[a.len() + j - 1] == b[j - 1]);
    } else {
        lemma_residues_prefix(a, b, a.len() as int);
    }
}

proof fn lemma_residues_of_gaps(m: nat, j: int)
    requires
        0 <= j <= m,
    ensures
        residues_upto(gaps(m), j) == 0,
    decreases j,
{
    if j > 0 {
        lemma_residues_of_gaps(m, j - 1);
    }
}

/// Whether `j` is the merged column of one of the first `n` columns.
pub open spec fn is_col_index(frame: Seq<nat>, n: int, j: int) -> bool {
    exists|col: int| 0 <= col < n && #[trigger] col_index(frame, col) == j
}

/// The step by which the woven row grows: the part before, the gaps, and the column.
proof fn lemma_woven_step(row: Seq<u8>, frame: Seq<nat>, n: int)
    requires
        0 < n <= row.len(),
        frame.len() == row.len() + 1,
    ensures
        woven_prefix(row, frame, n) == woven_prefix(row, frame, n - 1) + gaps(frame[n - 1]).push(
            row[n - 1],
        ),
        woven_prefix(row, frame, n - 1).len() == prefix_width(frame, n - 1),
        woven_prefix(row, frame, n).len() == prefix_width(frame, n),
        col_index(frame, n - 1) == prefix_width(frame, n - 1) + frame[n - 1],
        prefix_width(frame, n) == col_index(frame, n - 1) + 1,
        prefix_width(frame, n - 1) >= 0,
{
    lemma_woven_prefix_len(row, frame, n - 1);
    lemma_woven_prefix_len(row, frame, n);
    lemma_col_index(frame, n - 1);
    lemma_prefix_width_rises(frame, 0, n - 1);
}

proof fn lemma_woven_prefix_len(row: Seq<u8>, frame: Seq<nat>, n: int)
    requires
        0 <= n <= row.len(),
        frame.len() == row.len() + 1,
    ensures
        woven_prefix(row, frame, n).len() == prefix_width(frame, n),
    decreases n,
{
    if n > 0 {
        lemma_woven_prefix_len(row, frame, n - 1);
    }
}

/// The woven row has as many residues as the row.
proof fn lemma_woven_residues(row: Seq<u8>, frame: Seq<nat>, n: int)
    requires
        0 <= n <= row.len(),
        frame.len() == row.len() + 1,
    ensures
        residues_upto(woven_prefix(row, frame, n), prefix_width(frame, n)) == residues_upto(row, n),
    decreases n,
{
    if n > 0 {
        lemma_woven_residues(row, frame, n - 1);
        lemma_woven_step(row, frame, n);
        let p = woven_prefix(row, frame, n - 1);
        let g = gaps(frame[n - 1]);
        let tail = g.push(row[n - 1]);
        let m = frame[n - 1] as int;
        lemma_residues_suffix(p, tail, m + 1);
        lemma_tail_residues(frame[n - 1], row[n - 1]);
    }
}

/// Gaps and then one byte hold no residue before the byte, and one through it if it is one.
proof fn lemma_tail_residues(m: nat, b: u8)
    ensures
        residues_upto(gaps(m).push(b), m as int) == 0,
        residues_upto(gaps(m).push(b), m as int + 1) == (if is_gap(b) {
            0int
        } else {
            1int
        }),
{
    let g = gaps(m);
    let tail = g.push(b);
    assert(tail =~= g + seq![b]);
    lemma_residues_prefix(g, seq![b], m as int);
    lemma_residues_of_gaps(m, m as int);
    assert(tail[m as int] == b);
}

/// A column of the row stands in its merged column, with as many residues before it as in
/// the row.
proof fn lemma_woven_at(row: Seq<u8>, frame: Seq<nat>, n: int, col: int)
    requires
        0 <= col < n <= row.len(),
        frame.len() == row.len() + 1,
    ensures
        0 <= col_index(frame, col) < prefix_width(frame, n),
        woven_prefix(row, frame, n)[col_index(frame, col)] == row[col],
        residues_upto(woven_prefix(row, frame, n), col_index(frame, col)) == residues_upto(row, col),
    decreases n,
{
    lemma_woven_step(row, frame, n);
    let p = woven_prefix(row, frame, n - 1);
    let tail = gaps(frame[n - 1]).push(row[n - 1]);
    let m = frame[n - 1] as int;
    if col < n - 1 {
        lemma_woven_at(row, frame, n - 1, col);
        let i = col_index(frame, col);
        assert((p + tail)[i] == p[i]);
        lemma_residues_prefix(p, tail, i);
    } else {
        let i = col_index(frame, col);
        assert(i == p.len() + m);
        assert((p + tail)[i] == tail[m]);
        lemma_residues_suffix(p, tail, m);
        lemma_tail_residues(frame[n - 1], row[n - 1]);
        lemma_woven_residues(row, frame, n - 1);
    }
}

/// A residue of the woven row is a column of the row.
proof fn lemma_woven_back(row: Seq<u8>, frame: Seq<nat>, n: int, j: int)
    requires
        0 <= n <= row.len(),
        frame.len() == row.len() + 1,
        0 <= j < prefix_width(frame, n),
        !is_gap(woven_prefix(row, frame, n)[j]),
    ensures
        is_col_index(frame, n, j),
    decreases n,
{
    if n > 0 {
        lemma_woven_step(row, frame, n);
        let p = woven_prefix(row, frame, n - 1);
        let g = gaps(frame[n - 1]);
        let tail = g.push(row[n - 1]);
        let last = col_index(frame, n - 1);
        if j < p.len() {
            assert((p + tail)[j] == p[j]);
            lemma_woven_back(row, frame, n - 1, j);
            let col = choose|col: int| 0 <= col < n - 1 && #[trigger] col_index(frame, col) == j;
            assert(0 <= col < n && col_index(frame, col) == j);
        } else if j < last {
            assert((p + tail)[j] == tail[j - p.len()]);
            assert(tail[j - p.len()] == g[j - p.len()]);
            assert(false);
        } else {
            assert(0 <= n - 1 < n && col_index(frame, n - 1) == j);
        }
    }
}

/// In a woven row each column of the row stands in its merged column, with as many residues
/// before it as in the row.
pub proof fn lemma_woven_index(row: Seq<u8>, frame: Seq<nat>, col: int)
    requires
        frame.len() == row.len() + 1,
        0 <= col < row.len(),
    ensures
        0 <= col_index(frame, col) < woven(row, frame).len(),
        woven(row, frame)[col_index(frame, col)] == row[col],
        residues_upto(woven(row, frame), col_index(frame, col)) == residues_upto(row, col),
{
    let n = row.len() as int;
    lemma_woven_at(row, frame, n, col);
    lemma_woven_prefix_len(row, frame, n);
    let p = woven_prefix(row, frame, n);
    let tail = gaps(frame.last() + 1);
    let i = col_index(frame, col);
    assert((p + tail)[i] == p[i]);
    lemma_residues_prefix(p, tail, i);
}

/// Every residue of a woven row is a column of the row.
pub proof fn lemma_woven_residue(row: Seq<u8>, frame: Seq<nat>, j: int)
    requires
        frame.len() == row.len() + 1,
        0 <= j < woven(row, frame).len(),
        !is_gap(woven(row, frame)[j]),
    ensures
        is_col_index(frame, row.len() as int, j),
{
    let n = row.len() as int;
    lemma_woven_prefix_len(row, frame, n);
    let p = woven_prefix(row, frame, n);
    let tail = gaps(frame.last() + 1);
    if j < p.len() {
        assert((p + tail)[j] == p[j]);
        lemma_woven_back(row, frame, n, j);
    } else {
        assert((p + tail)[j] == tail[j - p.len()]);
        assert(false);
    }
}

/// The residue in column `col` of a row of constraint `k` is listed as column `col`, at the
/// place that the number of residues before it gives.
pub proof fn lemma_coords_at(k: u32, seq: Seq<u8>, n: int, col: int)
    requires
        0 <= col < n <= seq.len(),
        seq.len() <= u32::MAX,
        !is_gap(seq[col]),
    ensures
        coords_upto(k, seq, n).len() == residues_upto(seq, n),
        0 <= residues_upto(seq, col) < coords_upto(k, seq, n).len(),
        coords_upto(k, seq, n)[residues_upto(seq, col)] == (k, col as u32),
    decreases n,
{
    lemma_coords_len(k, seq, n - 1);
    lemma_coords_len(k, seq, col);
    if col < n - 1 {
        lemma_coords_at(k, seq, n - 1, col);
    }
}

pub proof fn lemma_coords_len(k: u32, seq: Seq<u8>, n: int)
    requires
        0 <= n <= seq.len(),
    ensures
        coords_upto(k, seq, n).len() == residues_upto(seq, n),
        residues_upto(seq, n) >= 0,
    decreases n,
{
    if n > 0 {
        lemma_coords_len(k, seq, n - 1);
    }
}


/// Whether a row of the constraint of the column has a residue in it.
pub open spec fn occupied(alns: Seq<Vec<Record>>, p: Pos) -> bool {
    exists|i: int|
        is_row(alns, p.0 as int, i) && p.1 < alns[p.0 as int]@[i].seq@.len() && !is_gap(
            #[trigger] alns[p.0 as int]@[i].seq@[p.1 as int],
        )
}

/// Row `i` of constraint `a` stands in the merged alignment at its place, under its name,
/// woven with the frame of its constraint.
pub open spec fn product_row(
    product: Seq<Record>,
    alns: Seq<Vec<Record>>,
    frames: Seq<Seq<nat>>,
    a: int,
    i: int,
) -> bool {
    let r = rows_before(alns, a) + i;
    &&& 0 <= r < product.len()
    &&& product[r].name@ == alns[a]@[i].name@
    &&& product[r].seq@ == woven(alns[a]@[i].seq@, frames[a])
}

/// The rows are the merged alignment of the constraints for the frames.
pub open spec fn is_product(product: Seq<Record>, alns: Seq<Vec<Record>>, frames: Seq<Seq<nat>>) -> bool {
    &&& product.len() == rows_before(alns, alns.len() as int)
    &&& forall|a: int, i: int| is_row(alns, a, i) ==> #[trigger] product_row(product, alns, frames, a, i)
}

/// The clusters are what the merged alignment shows: one for each of its columns in which a
/// row has a residue.
pub open spec fn shows(shown: Seq<Seq<Pos>>, state: AlnState, product: Seq<Record>) -> bool {
    &&& shown.len() == used_columns(product, glue_width(product)).len()
    &&& forall|x: int|
        0 <= x < shown.len() ==> is_column_cluster(
            #[trigger] shown[x],
            state,
            product,
            product.len() as int,
            used_columns(product, glue_width(product))[x],
        )
}

/// The state holds the rows of the constraints, and their numbers of columns.
pub open spec fn state_of(state: AlnState, alns: Seq<Vec<Record>>) -> bool {
    &&& state.wf()
    &&& state.column_counts@.len() == alns.len()
    &&& forall|a: int| 0 <= a < alns.len() ==> #[trigger] state.column_counts@[a] == width_of(alns, a)
    &&& clean_before(alns, alns.len() as int, 0)
    &&& holds_rows(state, alns, alns.len() as int, 0)
}

/// Every row of the merged alignment is a row of a constraint.
proof fn lemma_row_of(alns: Seq<Vec<Record>>, n: int, r: int) -> (ai: (int, int))
    requires
        0 <= n <= alns.len(),
        0 <= r < rows_before(alns, n),
    ensures
        is_row(alns, ai.0, ai.1),
        ai.0 < n,
        rows_before(alns, ai.0) + ai.1 == r,
    decreases n,
{
    if r < rows_before(alns, n - 1) {
        lemma_row_of(alns, n - 1, r)
    } else {
        (n - 1, r - rows_before(alns, n - 1))
    }
}

/// The columns in which a row has a residue are listed, in rising order.
proof fn lemma_used(recs: Seq<Record>, w: int)
    requires
        0 <= w,
    ensures
        forall|x: int|
            0 <= x < used_columns(recs, w).len() ==> 0 <= (#[trigger] used_columns(recs, w)[x]) < w
                && column_used(recs, recs.len() as int, used_columns(recs, w)[x]),
        forall|x: int, y: int|
            0 <= x < y < used_columns(recs, w).len() ==> used_columns(recs, w)[x] < used_columns(
                recs,
                w,
            )[y],
        forall|j: int|
            0 <= j < w && column_used(recs, recs.len() as int, j) ==> used_columns(recs, w).contains(j),
    decreases w,
{
    if w > 0 {
        lemma_used(recs, w - 1);
        let u0 = used_columns(recs, w - 1);
        let u1 = used_columns(recs, w);
        assert forall|j: int| 0 <= j < w && column_used(recs, recs.len() as int, j) implies u1.contains(
            j,
        ) by {
            if j < w - 1 {
                assert(u0.contains(j));
                let x = choose|x: int| 0 <= x < u0.len() && u0[x] == j;
                assert(u1[x] == j);
            } else {
                assert(u1[u1.len() - 1] == j);
            }
        }
    }
}

/// A column that one cluster only holds is held by it.
pub proof fn lemma_holder_is(t: Seq<Seq<Pos>>, p: Pos, x: int)
    requires
        0 <= x < t.len(),
        t[x].contains(p),
        forall|y: int| 0 <= y < t.len() && (#[trigger] t[y]).contains(p) ==> y == x,
    ensures
        holder(t, p) == x,
    decreases t.len(),
{
    if x < t.len() - 1 {
        assert(!t[t.len() - 1].contains(p));
        let t0 = t.drop_last();
        assert forall|y: int| 0 <= y < t0.len() && (#[trigger] t0[y]).contains(p) implies y == x by {
            assert(t0[y] == t[y]);
        }
        assert(t0[x] == t[x]);
        lemma_holder_is(t0, p, x);
    }
}

/// The frame of a constraint fits the rows of the constraint.
proof fn lemma_frame_fits(state: AlnState, alns: Seq<Vec<Record>>, t: Seq<Seq<Pos>>, a: int, i: int)
    requires
        state_of(state, alns),
        is_trace(t, state.column_counts@),
        is_row(alns, a, i),
    ensures
        frames_of(t, state.column_counts@)[a].len() == alns[a]@[i].seq@.len() + 1,
        alns[a]@[i].seq@.len() <= u32::MAX,
        woven(alns[a]@[i].seq@, frames_of(t, state.column_counts@)[a]).len() == row_sum(
            frames_of(t, state.column_counts@)[0],
        ) + state.column_counts@[0] + 1,
{
    let counts = state.column_counts@;
    crate::frames::lemma_frame_width_uniform(t, counts);
    assert(row_clean(alns, a, i));
    assert(counts[a] == width_of(alns, a));
    assert(frames_of(t, counts)[a].len() == counts[a] + 1);
    crate::weave::lemma_woven_len(alns[a]@[i].seq@, frames_of(t, counts)[a]);
}

/// The residue that a row of the merged alignment has in a merged column stands in the
/// column of the constraint that the merged column is for.
proof fn lemma_product_coord(
    state: AlnState,
    alns: Seq<Vec<Record>>,
    t: Seq<Seq<Pos>>,
    product: Seq<Record>,
    a: int,
    i: int,
    col: int,
)
    requires
        state_of(state, alns),
        is_trace(t, state.column_counts@),
        is_product(product, alns, frames_of(t, state.column_counts@)),
        is_row(alns, a, i),
        a <= u32::MAX,
        0 <= col < alns[a]@[i].seq@.len(),
        !is_gap(alns[a]@[i].seq@[col]),
    ensures
        ({
            let r = rows_before(alns, a) + i;
            let j = col_index(frames_of(t, state.column_counts@)[a], col);
            &&& 0 <= r < product.len()
            &&& 0 <= j < product[r].seq@.len()
            &&& !is_gap(product[r].seq@[j])
            &&& coord_at(state, product[r], j) == (a as u32, col as u32)
        }),
{
    let counts = state.column_counts@;
    let f = frames_of(t, counts)[a];
    let seq = alns[a]@[i].seq@;
    let r = rows_before(alns, a) + i;
    lemma_frame_fits(state, alns, t, a, i);
    assert(product_row(product, alns, frames_of(t, counts), a, i));
    assert(row_held(state, alns, a, i));
    lemma_woven_index(seq, f, col);
    lemma_coords_at(a as u32, seq, seq.len() as int, col);
}

/// A column that the merged alignment shows in a cluster stands in the merged column of the
/// cluster.
proof fn lemma_shown_where(
    state: AlnState,
    alns: Seq<Vec<Record>>,
    t: Seq<Seq<Pos>>,
    product: Seq<Record>,
    j: int,
    p: Pos,
)
    requires
        state_of(state, alns),
        is_trace(t, state.column_counts@),
        is_product(product, alns, frames_of(t, state.column_counts@)),
        in_column(state, product, product.len() as int, j, p),
        0 <= j,
    ensures
        p.0 < alns.len(),
        j == col_index(frames_of(t, state.column_counts@)[p.0 as int], p.1 as int),
{
    let counts = state.column_counts@;
    let r = choose|r: int|
        0 <= r < product.len() && j < product[r].seq@.len() && !is_gap(
            #[trigger] product[r].seq@[j],
        ) && coord_at(state, product[r], j) == p;
    let (a, i) = lemma_row_of(alns, alns.len() as int, r);
    let f = frames_of(t, counts)[a];
    let seq = alns[a]@[i].seq@;
    lemma_frame_fits(state, alns, t, a, i);
    assert(product_row(product, alns, frames_of(t, counts), a, i));
    assert(row_held(state, alns, a, i));
    lemma_woven_residue(seq, f, j);
    let col = choose|col: int| 0 <= col < seq.len() && #[trigger] col_index(f, col) == j;
    lemma_woven_index(seq, f, col);
    lemma_coords_at(a as u32, seq, seq.len() as int, col);
    assert(p == (a as u32, col as u32));
}

/// A column of a cluster of the trace in which a row has a residue is held by the cluster
/// that the merged alignment shows for the merged column of the cluster, and by no other.
proof fn lemma_member_shown(
    state: AlnState,
    alns: Seq<Vec<Record>>,
    t: Seq<Seq<Pos>>,
    product: Seq<Record>,
    shown: Seq<Seq<Pos>>,
    w: Seq<int>,
    n: int,
    a: int,
) -> (x: int)
    requires
        state_of(state, alns),
        is_trace(t, state.column_counts@),
        is_product(product, alns, frames_of(t, state.column_counts@)),
        shows(shown, state, product),
        w.len() == t.len(),
        forall|y: int, b: int|
            0 <= y < t.len() && 0 <= b < t[y].len() ==> col_index(
                frames_of(t, state.column_counts@)[(#[trigger] t[y][b]).0 as int],
                t[y][b].1 as int,
            ) == w[y],
        0 <= n < t.len(),
        0 <= a < t[n].len(),
        occupied(alns, t[n][a]),
    ensures
        0 <= x < shown.len(),
        used_columns(product, glue_width(product))[x] == w[n],
        holder(shown, t[n][a]) == x,
{
    let counts = state.column_counts@;
    let p = t[n][a];
    let k = p.0 as int;
    let col = p.1 as int;
    let used = used_columns(product, glue_width(product));
    let i = choose|i: int|
        is_row(alns, k, i) && p.1 < alns[k]@[i].seq@.len() && !is_gap(
            #[trigger] alns[k]@[i].seq@[col],
        );
    lemma_product_coord(state, alns, t, product, k, i, col);
    let r = rows_before(alns, k) + i;
    let j = col_index(frames_of(t, counts)[k], col);
    assert(j == w[n]);
    assert(in_column(state, product, product.len() as int, j, p)) by {
        assert(0 <= r < product.len() && j < product[r].seq@.len() && !is_gap(product[r].seq@[j])
            && coord_at(state, product[r], j) == p);
    }
    assert(column_used(product, product.len() as int, j)) by {
        assert(0 <= r < product.len() && j < product[r].seq@.len() && !is_gap(product[r].seq@[j]));
    }
    // all rows of the merged alignment are as long as the first
    let (a0, i0) = lemma_row_of(alns, alns.len() as int, 0);
    lemma_frame_fits(state, alns, t, a0, i0);
    lemma_frame_fits(state, alns, t, k, i);
    assert(product_row(product, alns, frames_of(t, counts), a0, i0));
    assert(product_row(product, alns, frames_of(t, counts), k, i));
    assert(j < glue_width(product));
    lemma_used(product, glue_width(product));
    assert(used.contains(j));
    let x = choose|x: int| 0 <= x < used.len() && used[x] == j;
    assert(is_column_cluster(shown[x], state, product, product.len() as int, used[x]));
    assert(shown[x].contains(p));
    assert forall|y: int| 0 <= y < shown.len() && (#[trigger] shown[y]).contains(p) implies y == x by {
        assert(is_column_cluster(shown[y], state, product, product.len() as int, used[y]));
        assert(in_column(state, product, product.len() as int, used[y], p));
        lemma_shown_where(state, alns, t, product, used[y], p);
        assert(used[y] == j);
        if y < x {
            assert(used[y] < used[x]);
        } else if x < y {
            assert(used[x] < used[y]);
        }
    }
    lemma_holder_is(shown, p, x);
    x
}

/// A trace in which more columns stand together scores no less.
proof fn lemma_score_rises(t: Seq<Seq<Pos>>, u: Seq<Seq<Pos>>, edges: Seq<Edge>, pos: Seq<Pos>, n: int)
    requires
        0 <= n <= edges.len(),
        forall|i: int|
            0 <= i < n && together(
                t,
                pos[(#[trigger] edges[i]).u as int],
                pos[edges[i].v as int],
            ) ==> together(u, pos[edges[i].u as int], pos[edges[i].v as int]),
    ensures
        score_upto(u, edges, pos, n) >= score_upto(t, edges, pos, n),
    decreases n,
{
    if n > 0 {
        lemma_score_rises(t, u, edges, pos, n - 1);
        let e = edges[n - 1];
    }
}

/// The trace that the merged alignment of a trace shows scores no less than the trace, on a
/// graph whose edges join columns in which rows have residues.
pub proof fn lemma_score_round_trip(
    state: AlnState,
    alns: Seq<Vec<Record>>,
    graph: Graph,
    t: Seq<Seq<Pos>>,
    product: Seq<Record>,
    shown: Seq<Seq<Pos>>,
)
    requires
        state_of(state, alns),
        is_trace(t, state.column_counts@),
        is_product(product, alns, frames_of(t, state.column_counts@)),
        shows(shown, state, product),
        forall|i: int|
            0 <= i < graph.sims.edges@.len() ==> occupied(
                alns,
                graph.node_pos@[(#[trigger] graph.sims.edges@[i]).u as int],
            ) && occupied(alns, graph.node_pos@[graph.sims.edges@[i].v as int]),
    ensures
        graph.score_of(shown) >= graph.score_of(t),
{
    let counts = state.column_counts@;
    let edges = graph.sims.edges@;
    let pos = graph.node_pos@;
    let w = lemma_clusters_aligned(t, counts);
    assert forall|i: int|
        0 <= i < edges.len() && together(
            t,
            pos[(#[trigger] edges[i]).u as int],
            pos[edges[i].v as int],
        ) implies together(shown, pos[edges[i].u as int], pos[edges[i].v as int]) by {
        let p = pos[edges[i].u as int];
        let q = pos[edges[i].v as int];
        let n = holder(t, p);
        crate::progressive::lemma_holder_range(t, p);
        crate::progressive::lemma_holder_range(t, q);
        assert(t[n].contains(p) && t[n].contains(q));
        let a = choose|a: int| 0 <= a < t[n].len() && t[n][a] == p;
        let b = choose|b: int| 0 <= b < t[n].len() && t[n][b] == q;
        let x = lemma_member_shown(state, alns, t, product, shown, w, n, a);
        let y = lemma_member_shown(state, alns, t, product, shown, w, n, b);
        lemma_used(product, glue_width(product));
        let used = used_columns(product, glue_width(product));
        if x < y {
            assert(used[x] < used[y]);
        } else if y < x {
            assert(used[y] < used[x]);
        }
    }
    lemma_score_rises(t, shown, edges, pos, edges.len() as int);
}

/// The merged alignment of a trace shows a trace of the same score, where no column outside
/// the clusters of the trace shares a merged column with the other end of an edge.
pub proof fn lemma_score_round_trip_even(
    state: AlnState,
    alns: Seq<Vec<Record>>,
    graph: Graph,
    t: Seq<Seq<Pos>>,
    product: Seq<Record>,
    shown: Seq<Seq<Pos>>,
)
    requires
        state_of(state, alns),
        is_trace(t, state.column_counts@),
        is_product(product, alns, frames_of(t, state.column_counts@)),
        shows(shown, state, product),
        forall|i: int|
            0 <= i < graph.sims.edges@.len() ==> occupied(
                alns,
                graph.node_pos@[(#[trigger] graph.sims.edges@[i]).u as int],
            ) && occupied(alns, graph.node_pos@[graph.sims.edges@[i].v as int]),
        forall|i: int|
            0 <= i < graph.sims.edges@.len() && together(
                shown,
                graph.node_pos@[(#[trigger] graph.sims.edges@[i]).u as int],
                graph.node_pos@[graph.sims.edges@[i].v as int],
            ) ==> crate::cluster::hosts(t, graph.node_pos@[graph.sims.edges@[i].u as int])
                && crate::cluster::hosts(t, graph.node_pos@[graph.sims.edges@[i].v as int]),
    ensures
        graph.score_of(shown) == graph.score_of(t),
{
    let counts = state.column_counts@;
    let edges = graph.sims.edges@;
    let pos = graph.node_pos@;
    lemma_score_round_trip(state, alns, graph, t, product, shown);
    let w = lemma_clusters_aligned(t, counts);
    lemma_used(product, glue_width(product));
    let used = used_columns(product, glue_width(product));
    assert forall|i: int|
        0 <= i < edges.len() && together(
            shown,
            pos[(#[trigger] edges[i]).u as int],
            pos[edges[i].v as int],
        ) implies together(t, pos[edges[i].u as int], pos[edges[i].v as int]) by {
        let p = pos[edges[i].u as int];
        let q = pos[edges[i].v as int];
        let x = holder(shown, p);
        crate::progressive::lemma_holder_range(shown, p);
        crate::progressive::lemma_holder_range(shown, q);
        assert(shown[x].contains(p) && shown[x].contains(q));
        assert(is_column_cluster(shown[x], state, product, product.len() as int, used[x]));
        assert(in_column(state, product, product.len() as int, used[x], p));
        assert(in_column(state, product, product.len() as int, used[x], q));
        lemma_shown_where(state, alns, t, product, used[x], p);
        lemma_shown_where(state, alns, t, product, used[x], q);
        let a = choose|a: int| 0 <= a < t.len() && (#[trigger] t[a]).contains(p);
        let b = choose|b: int| 0 <= b < t.len() && (#[trigger] t[b]).contains(q);
        let ia = choose|ia: int| 0 <= ia < t[a].len() && t[a][ia] == p;
        let ib = choose|ib: int| 0 <= ib < t[b].len() && t[b][ib] == q;
        assert(col_index(frames_of(t, counts)[t[a][ia].0 as int], t[a][ia].1 as int) == w[a]);
        assert(col_index(frames_of(t, counts)[t[b][ib].0 as int], t[b][ib].1 as int) == w[b]);
        if a < b {
            assert(w[a] < w[b]);
        } else if b < a {
            assert(w[b] < w[a]);
        }
        crate::settle::lemma_holder_in_trace(t, counts, p, a);
        crate::settle::lemma_holder_in_trace(t, counts, q, b);
    }
    lemma_score_rises(shown, t, edges, pos, edges.len() as int);
}

proof fn lemma_count_in(state: AlnState, glue: Seq<Record>, n: int, col: int, u: int) -> (r: int)
    requires
        count_in(state, glue, n, col, u) > 0,
    ensures
        0 <= r < n,
        stands_at(state, glue[r], col, u),
    decreases n,
{
    if stands_at(state, glue[n - 1], col, u) {
        n - 1
    } else {
        lemma_count_in(state, glue, n - 1, col, u)
    }
}

proof fn lemma_glue_weight_nonneg(state: AlnState, glue: Seq<Record>, w: int, u: int, v: int)
    ensures
        glue_weight(state, glue, w, u, v) >= 0,
    decreases w,
{
    if w > 0 {
        lemma_glue_weight_nonneg(state, glue, w - 1, u, v);
        let a = count_in(state, glue, glue.len() as int, w - 1, u) as int;
        let b = count_in(state, glue, glue.len() as int, w - 1, v) as int;
        assert(a * b >= 0) by (nonlinear_arith)
            requires
                a >= 0,
                b >= 0,
        ;
    }
}

proof fn lemma_glue_weight_col(state: AlnState, glue: Seq<Record>, w: int, u: int, v: int) -> (col: int)
    requires
        glue_weight(state, glue, w, u, v) > 0,
    ensures
        0 <= col < w,
        count_in(state, glue, glue.len() as int, col, u) > 0,
        count_in(state, glue, glue.len() as int, col, v) > 0,
    decreases w,
{
    let a = count_in(state, glue, glue.len() as int, w - 1, u) as int;
    let b = count_in(state, glue, glue.len() as int, w - 1, v) as int;
    if a * b > 0 {
        assert(a > 0 && b > 0) by (nonlinear_arith)
            requires
                a >= 0,
                b >= 0,
                a * b > 0,
        ;
        w - 1
    } else {
        lemma_glue_weight_nonneg(state, glue, w - 1, u, v);
        assert(a * b >= 0) by (nonlinear_arith)
            requires
                a >= 0,
                b >= 0,
        ;
        lemma_glue_weight_col(state, glue, w - 1, u, v)
    }
}

proof fn lemma_graph_weight_glue(
    state: AlnState,
    glues: Seq<Vec<Record>>,
    weights: Option<Vec<u64>>,
    i: int,
    u: usize,
    v: usize,
) -> (g: int)
    requires
        graph_weight(state, glues, weights, i, u, v) > 0,
    ensures
        0 <= g < i,
        glue_weight(state, glues[g]@, glue_width(glues[g]@), u as int, v as int) > 0,
    decreases i,
{
    let f = factor_of(weights, i - 1);
    let w = glue_weight(state, glues[i - 1]@, glue_width(glues[i - 1]@), u as int, v as int);
    lemma_glue_weight_nonneg(state, glues[i - 1]@, glue_width(glues[i - 1]@), u as int, v as int);
    if w > 0 {
        i - 1
    } else {
        assert(f * w == 0) by (nonlinear_arith)
            requires
                w == 0,
        ;
        lemma_graph_weight_glue(state, glues, weights, i - 1, u, v)
    }
}

/// Every entry of the list of coordinates of a row is a column of the row that holds a
/// residue.
pub proof fn lemma_coords_member(k: u32, seq: Seq<u8>, n: int, r: int)
    requires
        0 <= n <= seq.len(),
        n <= u32::MAX,
        0 <= r < coords_upto(k, seq, n).len(),
    ensures
        coords_upto(k, seq, n)[r].0 == k,
        coords_upto(k, seq, n)[r].1 < n,
        !is_gap(seq[coords_upto(k, seq, n)[r].1 as int]),
    decreases n,
{
    if n > 0 {
        if is_gap(seq[n - 1]) {
            lemma_coords_member(k, seq, n - 1, r);
        } else if r < coords_upto(k, seq, n - 1).len() {
            lemma_coords_member(k, seq, n - 1, r);
        }
    }
}

/// A row of a glue that stands at a node holds a residue of the column of that node.
proof fn lemma_stands_occupied(
    state: AlnState,
    alns: Seq<Vec<Record>>,
    graph: Graph,
    rec: Record,
    col: int,
    u: int,
)
    requires
        state_of(state, alns),
        graph.wf(state.column_counts@),
        forall|a: int, i: int| is_row(alns, a, i) ==> (#[trigger] alns[a]@[i]).seq@.len() <= u32::MAX,
        alns.len() <= u32::MAX,
        0 <= col,
        0 <= u < graph.size,
        row_matches(state, rec),
        stands_at(state, rec, col, u),
    ensures
        occupied(alns, graph.node_pos@[u]),
{
    let counts = state.column_counts@;
    let name = rec.name@;
    let id = state.id_of(name) as int;
    assert(state.knows(name));
    assert(named_before(alns, alns.len() as int, 0, name));
    let (b, j) = choose|b: int, j: int|
        #![trigger alns[b]@[j]]
        is_row(alns, b, j) && comes_before(b, j, alns.len() as int, 0) && alns[b]@[j].name@ == name;
    assert(row_held(state, alns, b, j));
    assert(row_clean(alns, b, j));
    let seq = alns[b]@[j].seq@;
    let list = coords_of(b as u32, seq);
    assert(state.s@[id]@ == list);
    let r = residues_upto(rec.seq@, col);
    lemma_residues_rise(rec.seq@, 0, col);
    lemma_residues_rise(rec.seq@, col + 1, rec.seq@.len() as int);
    assert(residues_upto(rec.seq@, col + 1) == r + 1);
    assert(0 <= r < list.len());
    lemma_coords_member(b as u32, seq, seq.len() as int, r);
    let p = list[r];
    assert(p == coord_at(state, rec, col));
    assert(node_of(counts, p) == u);
    assert(seq.len() == width_of(alns, b));
    let q = graph.node_pos@[u];
    assert(node_of(counts, q) == u);
    if p != q {
        if p.0 < q.0 || (p.0 == q.0 && p.1 < q.1) {
            crate::kept::lemma_node_rises(counts, p, q);
        } else {
            crate::kept::lemma_node_rises(counts, q, p);
        }
    }
    assert(is_row(alns, p.0 as int, j) && !is_gap(alns[p.0 as int]@[j].seq@[p.1 as int]));
}

/// The graph has the weights that the glues give on the state.
pub open spec fn weighs_glues(
    graph: Graph,
    state: AlnState,
    glues: Seq<Vec<Record>>,
    weights: Option<Vec<u64>>,
) -> bool {
    &&& graph.wf(state.column_counts@)
    &&& forall|i: int| 0 <= i < glues.len() ==> glue_clean_before(
        state,
        (#[trigger] glues[i])@,
        glues[i]@.len() as int,
    )
    &&& forall|u: usize, v: usize|
        u < v ==> #[trigger] graph.sims.weight(u, v) == graph_weight(
            state,
            glues,
            weights,
            glues.len() as int,
            u,
            v,
        )
}

/// Every edge of a graph that glues give joins two columns in which rows of the
/// constraints hold residues.
pub proof fn lemma_edges_occupied(
    state: AlnState,
    alns: Seq<Vec<Record>>,
    glues: Seq<Vec<Record>>,
    weights: Option<Vec<u64>>,
    graph: Graph,
    i: int,
)
    requires
        state_of(state, alns),
        weighs_glues(graph, state, glues, weights),
        forall|a: int, i: int| is_row(alns, a, i) ==> (#[trigger] alns[a]@[i]).seq@.len() <= u32::MAX,
        alns.len() <= u32::MAX,
        0 <= i < graph.sims.edges@.len(),
    ensures
        occupied(alns, graph.node_pos@[graph.sims.edges@[i].u as int]),
        occupied(alns, graph.node_pos@[graph.sims.edges@[i].v as int]),
{
    let e = graph.sims.edges@[i];
    graph.sims.lemma_weight_at(i);
    assert(e.u < e.v < graph.size);
    assert(graph.sims.weight(e.u, e.v) == e.w);
    let g = lemma_graph_weight_glue(state, glues, weights, glues.len() as int, e.u, e.v);
    let glue = glues[g]@;
    let col = lemma_glue_weight_col(state, glue, glue_width(glue), e.u as int, e.v as int);
    let r1 = lemma_count_in(state, glue, glue.len() as int, col, e.u as int);
    let r2 = lemma_count_in(state, glue, glue.len() as int, col, e.v as int);
    assert(glue_clean_before(state, glue, glue.len() as int));
    assert(glue_fault(state, glue, r1).is_none());
    assert(glue_fault(state, glue, r2).is_none());
    lemma_stands_occupied(state, alns, graph, glue[r1], col, e.u as int);
    lemma_stands_occupied(state, alns, graph, glue[r2], col, e.v as int);
}

/// The merged alignment of a trace shows a trace that scores as high at least, on a graph
/// that glues give on the state of the constraints.
pub proof fn lemma_built_round_trip(
    state: AlnState,
    alns: Seq<Vec<Record>>,
    glues: Seq<Vec<Record>>,
    weights: Option<Vec<u64>>,
    graph: Graph,
    t: Seq<Seq<Pos>>,
    product: Seq<Record>,
    shown: Seq<Seq<Pos>>,
)
    requires
        state_of(state, alns),
        weighs_glues(graph, state, glues, weights),
        forall|a: int, i: int| is_row(alns, a, i) ==> (#[trigger] alns[a]@[i]).seq@.len() <= u32::MAX,
        alns.len() <= u32::MAX,
        is_trace(t, state.column_counts@),
        is_product(product, alns, frames_of(t, state.column_counts@)),
        shows(shown, state, product),
    ensures
        graph.score_of(shown) >= graph.score_of(t),
{
    assert forall|i: int| 0 <= i < graph.sims.edges@.len() implies occupied(
        alns,
        graph.node_pos@[(#[trigger] graph.sims.edges@[i]).u as int],
    ) && occupied(alns, graph.node_pos@[graph.sims.edges@[i].v as int]) by {
        lemma_edges_occupied(state, alns, glues, weights, graph, i);
    }
    lemma_score_round_trip(state, alns, graph, t, product, shown);
}

} // verus!
