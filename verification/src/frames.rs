use vstd::prelude::*;
use crate::cluster::{Pos, is_sorted_trace, is_trace, ClusteringResult};
use crate::state::AlnState;

verus! {

/// The gap schedule while a trace is walked: for each constraint the gaps to insert before
/// each of its columns placed so far, with one more entry for the gaps after them, and the
/// number of its columns placed so far.
pub struct Schedule {
    pub frames: Seq<Seq<nat>>,
    pub placed: Seq<nat>,
}

/// The sum of the entries of a row.
pub open spec fn row_sum(row: Seq<nat>) -> nat
    decreases row.len(),
{
    if row.len() == 0 {
        0
    } else {
        row_sum(row.drop_last()) + row.last()
    }
}

/// The sum of the entries.
pub open spec fn total(s: Seq<nat>) -> nat
    decreases s.len(),
{
    if s.len() == 0 {
        0
    } else {
        total(s.drop_last()) + s.last()
    }
}

/// The number of columns of all constraints together.
pub open spec fn total_columns(counts: Seq<usize>) -> nat
    decreases counts.len(),
{
    if counts.len() == 0 {
        0
    } else {
        total_columns(counts.drop_last()) + counts.last() as nat
    }
}

/// The number of merged columns that a row spans: its gaps and the columns between them.
pub open spec fn row_width(row: Seq<nat>) -> int {
    row_sum(row) + row.len() - 1
}

/// The row with `by` more gaps at its end.
pub open spec fn add_last(row: Seq<nat>, by: nat) -> Seq<nat> {
    row.update(row.len() - 1, row.last() + by)
}

/// `n` entries without gaps.
pub open spec fn zeros(n: nat) -> Seq<nat> {
    Seq::new(n, |i: int| 0nat)
}

/// `s` merged columns that hold only constraint `c`: its next `s` columns follow without
/// gaps, and every other constraint gets `s` gaps.
pub open spec fn with_singletons(f: Seq<Seq<nat>>, c: int, s: nat) -> Seq<Seq<nat>> {
    Seq::new(f.len(), |j: int| if j == c { f[j] + zeros(s) } else { add_last(f[j], s) })
}

/// One gap more at the end of constraint `c`.
pub open spec fn with_gap(f: Seq<Seq<nat>>, c: int) -> Seq<Seq<nat>> {
    f.update(c, add_last(f[c], 1))
}

/// The next column of constraint `c`, with no gap after it yet.
pub open spec fn with_column(f: Seq<Seq<nat>>, c: int) -> Seq<Seq<nat>> {
    f.update(c, f[c].push(0))
}

/// The number of columns of a constraint between those placed and column `col`.
pub open spec fn pending(placed: nat, col: int) -> nat {
    if col > placed {
        (col - placed) as nat
    } else {
        0
    }
}

/// Constraint `c` gets a gap in the merged column at hand.
pub open spec fn skip(st: Schedule, c: int) -> Schedule {
    Schedule { frames: with_gap(st.frames, c), placed: st.placed }
}

/// Whether the cluster holds a column of constraint `c`.
pub open spec fn has_constraint(cl: Seq<Pos>, c: int) -> bool {
    exists|i: int| 0 <= i < cl.len() && #[trigger] cl[i].0 == c
}

/// The column of constraint `c` in a cluster that holds one.
pub open spec fn column_in(cl: Seq<Pos>, c: int) -> int {
    cl[choose|i: int| 0 <= i < cl.len() && #[trigger] cl[i].0 == c].1 as int
}

/// What a constraint does before the column of a cluster: the columns that lie before the
/// one it has in the cluster, and that no cluster held, become merged columns of their own.
pub open spec fn lead_in(st: Schedule, cl: Seq<Pos>, c: int) -> Schedule {
    if has_constraint(cl, c) {
        let s = pending(st.placed[c], column_in(cl, c));
        Schedule {
            frames: with_singletons(st.frames, c, s),
            placed: st.placed.update(c, st.placed[c] + s),
        }
    } else {
        st
    }
}

/// The schedule after constraints `c..k` have placed what lies before their columns of the
/// cluster, by rising index.
pub open spec fn lead_ins(st: Schedule, cl: Seq<Pos>, c: int, k: int) -> Schedule
    decreases k - c,
{
    if c >= k {
        st
    } else {
        lead_ins(lead_in(st, cl, c), cl, c + 1, k)
    }
}

/// What one constraint does for the merged column of a cluster: it places its column, or
/// takes a gap.
pub open spec fn cluster_step(st: Schedule, cl: Seq<Pos>, c: int) -> Schedule {
    if has_constraint(cl, c) {
        Schedule { frames: with_column(st.frames, c), placed: st.placed.update(c, st.placed[c] + 1) }
    } else {
        skip(st, c)
    }
}

/// The schedule after constraints `c..k` have dealt with the merged column of the cluster.
pub open spec fn columns(st: Schedule, cl: Seq<Pos>, c: int, k: int) -> Schedule
    decreases k - c,
{
    if c >= k {
        st
    } else {
        columns(cluster_step(st, cl, c), cl, c + 1, k)
    }
}

/// The schedule after a cluster: first every constraint of the cluster places the columns
/// that lie before its column, then the cluster becomes one merged column.
pub open spec fn after_cluster(st: Schedule, cl: Seq<Pos>, k: int) -> Schedule {
    columns(lead_ins(st, cl, 0, k), cl, 0, k)
}

/// The schedule before any cluster: no column placed, no gap.
pub open spec fn start(k: nat) -> Schedule {
    Schedule { frames: Seq::new(k, |j: int| seq![0nat]), placed: Seq::new(k, |j: int| 0nat) }
}

/// The schedule after the clusters of the trace, in their order.
pub open spec fn after_trace(t: Seq<Seq<Pos>>, k: nat) -> Schedule
    decreases t.len(),
{
    if t.len() == 0 {
        start(k)
    } else {
        after_cluster(after_trace(t.drop_last(), k), t.last(), k as int)
    }
}

/// Constraint `c` places the columns that are left of it.
pub open spec fn flush_step(st: Schedule, counts: Seq<usize>, c: int) -> Schedule {
    Schedule {
        frames: with_singletons(st.frames, c, pending(st.placed[c], counts[c] as int)),
        placed: st.placed.update(c, counts[c] as nat),
    }
}

/// The schedule after constraints `c..` have placed the columns that were left.
pub open spec fn flushed(st: Schedule, counts: Seq<usize>, c: int) -> Schedule
    decreases counts.len() - c,
{
    if c >= counts.len() {
        st
    } else {
        flushed(flush_step(st, counts, c), counts, c + 1)
    }
}

/// The frames of a trace: for each constraint, the gaps before each column and after the last.
pub open spec fn frames_of(t: Seq<Seq<Pos>>, counts: Seq<usize>) -> Seq<Seq<nat>> {
    flushed(after_trace(t, counts.len()), counts, 0).frames
}

/// The frames in a vector of vectors.
pub open spec fn frames_view(v: Seq<Vec<u32>>) -> Seq<Seq<nat>> {
    Seq::new(v.len(), |j: int| Seq::new(v[j]@.len(), |i: int| v[j]@[i] as nat))
}

/// What holds of a schedule between two steps: while a cluster is dealt with, constraints
/// below `c` are one merged column ahead of the others, which span `w` merged columns.
pub open spec fn balanced(st: Schedule, counts: Seq<usize>, c: int, w: int, done: int) -> bool {
    &&& st.frames.len() == counts.len()
    &&& st.placed.len() == counts.len()
    &&& forall|j: int|
        0 <= j < counts.len() ==> (#[trigger] st.frames[j]).len() == st.placed[j] + 1
            && st.placed[j] <= counts[j] && row_width(st.frames[j]) == w + (if j < c {
            1int
        } else {
            0int
        })
    &&& 0 <= w <= done + total(st.placed)
}

pub proof fn lemma_sum_push(row: Seq<nat>, x: nat)
    ensures
        row_sum(row.push(x)) == row_sum(row) + x,
{
    assert(row.push(x).drop_last() =~= row);
}

pub proof fn lemma_sum_add_last(row: Seq<nat>, by: nat)
    requires
        row.len() > 0,
    ensures
        row_sum(add_last(row, by)) == row_sum(row) + by,
{
    assert(add_last(row, by).drop_last() =~= row.drop_last());
}

pub proof fn lemma_sum_zeros(row: Seq<nat>, s: nat)
    ensures
        row_sum(row + zeros(s)) == row_sum(row),
    decreases s,
{
    if s == 0 {
        assert(row + zeros(0) =~= row);
    } else {
        lemma_sum_zeros(row, (s - 1) as nat);
        assert(row + zeros(s) =~= (row + zeros((s - 1) as nat)).push(0));
        lemma_sum_push(row + zeros((s - 1) as nat), 0);
    }
}

pub proof fn lemma_total_update(s: Seq<nat>, c: int, v: nat)
    requires
        0 <= c < s.len(),
    ensures
        total(s.update(c, v)) == total(s) - s[c] + v,
    decreases s.len(),
{
    if c == s.len() - 1 {
        assert(s.update(c, v).drop_last() =~= s.drop_last());
    } else {
        lemma_total_update(s.drop_last(), c, v);
        assert(s.update(c, v).drop_last() =~= s.drop_last().update(c, v));
    }
}

pub proof fn lemma_total_le(s: Seq<nat>, counts: Seq<usize>)
    requires
        s.len() == counts.len(),
        forall|j: int| 0 <= j < s.len() ==> s[j] <= counts[j],
    ensures
        total(s) <= total_columns(counts),
    decreases s.len(),
{
    if s.len() > 0 {
        lemma_total_le(s.drop_last(), counts.drop_last());
    }
}

pub proof fn lemma_total_start(k: nat)
    ensures
        total(Seq::new(k, |j: int| 0nat)) == 0,
    decreases k,
{
    if k > 0 {
        lemma_total_start((k - 1) as nat);
        assert(Seq::new(k, |j: int| 0nat).drop_last() =~= Seq::new((k - 1) as nat, |j: int| 0nat));
    }
}

/// Singleton columns of constraint `c` keep a schedule balanced and widen it by their number.
pub proof fn lemma_singletons(
    st: Schedule,
    counts: Seq<usize>,
    c: int,
    at: int,
    w: int,
    done: int,
    upto: int,
)
    requires
        balanced(st, counts, at, w, done),
        0 <= c < counts.len(),
        st.placed[c] <= upto <= counts[c],
    ensures
        balanced(
            Schedule {
                frames: with_singletons(st.frames, c, pending(st.placed[c], upto)),
                placed: st.placed.update(c, upto as nat),
            },
            counts,
            at,
            w + pending(st.placed[c], upto),
            done,
        ),
{
    let s = pending(st.placed[c], upto);
    let out = Schedule {
        frames: with_singletons(st.frames, c, s),
        placed: st.placed.update(c, upto as nat),
    };
    lemma_total_update(st.placed, c, upto as nat);
    assert(st.frames[c].len() == st.placed[c] + 1);
    assert(total(out.placed) == total(st.placed) + s);
    assert forall|j: int| 0 <= j < counts.len() implies (#[trigger] out.frames[j]).len()
        == out.placed[j] + 1 && out.placed[j] <= counts[j] && row_width(out.frames[j]) == w + s + (
    if j < at {
        1int
    } else {
        0int
    }) by {
        assert(st.frames[j].len() == st.placed[j] + 1);
        if j == c {
            lemma_sum_zeros(st.frames[j], s);
            assert(out.frames[j] == st.frames[j] + zeros(s));
        } else {
            lemma_sum_add_last(st.frames[j], s);
            assert(out.frames[j] == add_last(st.frames[j], s));
        }
    }
}

/// For each constraint, the columns placed are none, or end with a column that one of the
/// first `n` clusters holds.
pub open spec fn reached(placed: Seq<nat>, t: Seq<Seq<Pos>>, n: int) -> bool {
    forall|j: int|
        0 <= j < placed.len() ==> #[trigger] placed[j] == 0 || exists|i: int, a: int|
            0 <= i < n && 0 <= a < t[i].len() && (#[trigger] t[i][a]).0 == j && t[i][a].1 + 1
                == placed[j]
}

/// How far the constraints are with a cluster: those below `c1` have placed what lies
/// before their column of the cluster, those below `c2` the column too.
pub open spec fn progress(
    placed: Seq<nat>,
    placed0: Seq<nat>,
    cl: Seq<Pos>,
    c1: int,
    c2: int,
) -> bool {
    &&& placed.len() == placed0.len()
    &&& forall|j: int|
        0 <= j < placed.len() ==> #[trigger] placed[j] == (if has_constraint(cl, j) && j < c2 {
            column_in(cl, j) + 1
        } else if has_constraint(cl, j) && j < c1 {
            column_in(cl, j)
        } else {
            placed0[j] as int
        })
}

/// In a trace, the column that a cluster holds of a constraint lies past the columns placed.
pub proof fn lemma_next_column(
    placed: Seq<nat>,
    t: Seq<Seq<Pos>>,
    counts: Seq<usize>,
    n: int,
    c: int,
)
    requires
        is_trace(t, counts),
        0 <= n < t.len(),
        0 <= c < counts.len(),
        placed.len() == counts.len(),
        reached(placed, t, n),
        has_constraint(t[n], c),
    ensures
        placed[c] <= column_in(t[n], c) < counts[c],
{
    let b = choose|b: int| 0 <= b < t[n].len() && #[trigger] t[n][b].0 == c;
    assert(crate::cluster::cluster_in_range(t[n], counts));
    if placed[c] != 0 {
        let (i, a) = choose|i: int, a: int|
            0 <= i < n && 0 <= a < t[i].len() && (#[trigger] t[i][a]).0 == c && t[i][a].1 + 1
                == placed[c];
        assert(crate::cluster::strictly_before(t[i], t[n]));
        assert(t[i][a].0 == t[n][b].0);
    }
}

/// Placing what lies before a column of a cluster keeps the schedule balanced.
pub proof fn lemma_lead_in(
    st: Schedule,
    placed0: Seq<nat>,
    t: Seq<Seq<Pos>>,
    counts: Seq<usize>,
    n: int,
    c: int,
    w: int,
) -> (w2: int)
    requires
        is_trace(t, counts),
        0 <= n < t.len(),
        0 <= c < counts.len(),
        placed0.len() == counts.len(),
        reached(placed0, t, n),
        balanced(st, counts, 0, w, n),
        progress(st.placed, placed0, t[n], c, 0),
    ensures
        w2 == w + (if has_constraint(t[n], c) {
            pending(st.placed[c], column_in(t[n], c))
        } else {
            0nat
        }),
        balanced(lead_in(st, t[n], c), counts, 0, w2, n),
        progress(lead_in(st, t[n], c).placed, placed0, t[n], c + 1, 0),
{
    let cl = t[n];
    assert(st.placed[c] == placed0[c]);
    if has_constraint(cl, c) {
        lemma_next_column(placed0, t, counts, n, c);
        let col = column_in(cl, c);
        let s = pending(st.placed[c], col);
        lemma_singletons(st, counts, c, 0, w, n, col);
        let out = lead_in(st, cl, c);
        assert(out.placed =~= st.placed.update(c, col as nat));
        assert forall|j: int| 0 <= j < out.placed.len() implies #[trigger] out.placed[j] == (
        if has_constraint(cl, j) && j < 0 {
            column_in(cl, j) + 1
        } else if has_constraint(cl, j) && j < c + 1 {
            column_in(cl, j)
        } else {
            placed0[j] as int
        }) by {
            if j != c {
                assert(out.placed[j] == st.placed[j]);
            }
        }
        w + s
    } else {
        assert forall|j: int| 0 <= j < st.placed.len() implies #[trigger] st.placed[j] == (
        if has_constraint(cl, j) && j < 0 {
            column_in(cl, j) + 1
        } else if has_constraint(cl, j) && j < c + 1 {
            column_in(cl, j)
        } else {
            placed0[j] as int
        }) by {}
        w
    }
}

/// One constraint's step for the merged column of a cluster keeps the schedule balanced.
pub proof fn lemma_cluster_step(
    st: Schedule,
    placed0: Seq<nat>,
    counts: Seq<usize>,
    cl: Seq<Pos>,
    c: int,
    w: int,
    done: int,
)
    requires
        balanced(st, counts, c, w, done),
        0 <= c < counts.len(),
        crate::cluster::cluster_in_range(cl, counts),
        progress(st.placed, placed0, cl, counts.len() as int, c),
    ensures
        balanced(cluster_step(st, cl, c), counts, c + 1, w, done),
        progress(cluster_step(st, cl, c).placed, placed0, cl, counts.len() as int, c + 1),
{
    assert(st.frames[c].len() == st.placed[c] + 1);
    let out = cluster_step(st, cl, c);
    if has_constraint(cl, c) {
        let b = choose|b: int| 0 <= b < cl.len() && #[trigger] cl[b].0 == c;
        assert(cl[b].1 < counts[c]);
        assert(st.placed[c] == column_in(cl, c));
        lemma_sum_push(st.frames[c], 0);
        lemma_total_update(st.placed, c, st.placed[c] + 1);
    } else {
        lemma_sum_add_last(st.frames[c], 1);
    }
    assert forall|j: int| 0 <= j < counts.len() implies (#[trigger] out.frames[j]).len()
        == out.placed[j] + 1 && out.placed[j] <= counts[j] && row_width(out.frames[j]) == w + (if j
        < c + 1 {
        1int
    } else {
        0int
    }) by {
        assert(st.frames[j].len() == st.placed[j] + 1);
        if j == c {
            if has_constraint(cl, c) {
                assert(out.frames[j] == st.frames[j].push(0));
            } else {
                assert(out.frames[j] == add_last(st.frames[j], 1));
            }
        } else {
            assert(out.frames[j] == st.frames[j]);
        }
    }
    assert(out.frames.len() == counts.len());
    assert(out.placed.len() == counts.len());
    assert(0 <= w <= done + total(out.placed));
    assert forall|j: int| 0 <= j < out.placed.len() implies #[trigger] out.placed[j] == (
    if has_constraint(cl, j) && j < c + 1 {
        column_in(cl, j) + 1
    } else if has_constraint(cl, j) && j < counts.len() {
        column_in(cl, j)
    } else {
        placed0[j] as int
    }) by {
        if j != c {
            assert(out.placed[j] == st.placed[j]);
        }
    }
}

/// After a cluster, the columns placed are tied to the clusters up to it.
pub proof fn lemma_cluster_done(
    st: Schedule,
    placed0: Seq<nat>,
    t: Seq<Seq<Pos>>,
    counts: Seq<usize>,
    n: int,
    w: int,
)
    requires
        is_trace(t, counts),
        0 <= n < t.len(),
        placed0.len() == counts.len(),
        reached(placed0, t, n),
        balanced(st, counts, counts.len() as int, w, n),
        progress(st.placed, placed0, t[n], counts.len() as int, counts.len() as int),
    ensures
        balanced(st, counts, 0, w + 1, n + 1),
        reached(st.placed, t, n + 1),
{
    assert forall|j: int| 0 <= j < st.placed.len() implies #[trigger] st.placed[j] == 0
        || exists|i: int, a: int|
        0 <= i < n + 1 && 0 <= a < t[i].len() && (#[trigger] t[i][a]).0 == j && t[i][a].1 + 1
            == st.placed[j] by {
        if has_constraint(t[n], j) {
            let b = choose|b: int| 0 <= b < t[n].len() && #[trigger] t[n][b].0 == j;
            assert(t[n][b].0 == j && t[n][b].1 + 1 == st.placed[j]);
        } else {
            assert(st.placed[j] == placed0[j]);
            if placed0[j] != 0 {
                let (i, a) = choose|i: int, a: int|
                    0 <= i < n && 0 <= a < t[i].len() && (#[trigger] t[i][a]).0 == j && t[i][a].1
                        + 1 == placed0[j];
                assert(t[i][a].0 == j && t[i][a].1 + 1 == st.placed[j]);
            }
        }
    }
    assert forall|j: int| 0 <= j < counts.len() implies (#[trigger] st.frames[j]).len()
        == st.placed[j] + 1 && st.placed[j] <= counts[j] && row_width(st.frames[j]) == w + 1 + (
    if j < 0 {
        1int
    } else {
        0int
    }) by {}
}

/// Placing what lies before the columns of cluster `n`, from constraint `c` on, keeps the
/// schedule balanced.
pub proof fn lemma_lead_ins(
    st: Schedule,
    placed0: Seq<nat>,
    t: Seq<Seq<Pos>>,
    counts: Seq<usize>,
    n: int,
    c: int,
    w: int,
) -> (w2: int)
    requires
        is_trace(t, counts),
        0 <= n < t.len(),
        0 <= c <= counts.len(),
        placed0.len() == counts.len(),
        reached(placed0, t, n),
        balanced(st, counts, 0, w, n),
        progress(st.placed, placed0, t[n], c, 0),
    ensures
        w <= w2,
        balanced(lead_ins(st, t[n], c, counts.len() as int), counts, 0, w2, n),
        progress(
            lead_ins(st, t[n], c, counts.len() as int).placed,
            placed0,
            t[n],
            counts.len() as int,
            0,
        ),
    decreases counts.len() - c,
{
    if c >= counts.len() {
        w
    } else {
        let w1 = lemma_lead_in(st, placed0, t, counts, n, c, w);
        lemma_lead_ins(lead_in(st, t[n], c), placed0, t, counts, n, c + 1, w1)
    }
}

/// Dealing with the merged column of cluster `n`, from constraint `c` on, keeps the schedule
/// balanced.
pub proof fn lemma_columns(
    st: Schedule,
    placed0: Seq<nat>,
    t: Seq<Seq<Pos>>,
    counts: Seq<usize>,
    n: int,
    c: int,
    w: int,
)
    requires
        is_trace(t, counts),
        0 <= n < t.len(),
        0 <= c <= counts.len(),
        balanced(st, counts, c, w, n),
        progress(st.placed, placed0, t[n], counts.len() as int, c),
    ensures
        balanced(columns(st, t[n], c, counts.len() as int), counts, counts.len() as int, w, n),
        progress(
            columns(st, t[n], c, counts.len() as int).placed,
            placed0,
            t[n],
            counts.len() as int,
            counts.len() as int,
        ),
    decreases counts.len() - c,
{
    if c < counts.len() {
        lemma_cluster_step(st, placed0, counts, t[n], c, w, n);
        lemma_columns(cluster_step(st, t[n], c), placed0, t, counts, n, c + 1, w);
    }
}

/// Dealing with cluster `n` keeps the schedule balanced.
pub proof fn lemma_after_cluster(st: Schedule, t: Seq<Seq<Pos>>, counts: Seq<usize>, n: int, w: int) -> (w2:
    int)
    requires
        is_trace(t, counts),
        0 <= n < t.len(),
        balanced(st, counts, 0, w, n),
        reached(st.placed, t, n),
    ensures
        balanced(after_cluster(st, t[n], counts.len() as int), counts, 0, w2, n + 1),
        reached(after_cluster(st, t[n], counts.len() as int).placed, t, n + 1),
        w < w2,
{
    let k = counts.len() as int;
    assert(progress(st.placed, st.placed, t[n], 0, 0));
    let w1 = lemma_lead_ins(st, st.placed, t, counts, n, 0, w);
    let st1 = lead_ins(st, t[n], 0, k);
    lemma_columns(st1, st.placed, t, counts, n, 0, w1);
    let st2 = columns(st1, t[n], 0, k);
    lemma_cluster_done(st2, st.placed, t, counts, n, w1);
    w1 + 1
}

/// Walking the first `n` clusters of a trace leaves a balanced schedule.
pub proof fn lemma_after_trace(t: Seq<Seq<Pos>>, counts: Seq<usize>, n: int) -> (w: int)
    requires
        is_trace(t, counts),
        0 <= n <= t.len(),
    ensures
        balanced(after_trace(t.take(n), counts.len()), counts, 0, w, n),
        reached(after_trace(t.take(n), counts.len()).placed, t, n),
    decreases n,
{
    let k = counts.len();
    if n == 0 {
        lemma_total_start(k);
        assert forall|j: int| 0 <= j < k implies row_width(#[trigger] start(k).frames[j]) == 0 by {
            assert(seq![0nat].drop_last() =~= Seq::<nat>::empty());
            assert(row_sum(Seq::<nat>::empty()) == 0);
            assert(row_sum(seq![0nat]) == 0);
        }
        0
    } else {
        let w0 = lemma_after_trace(t, counts, n - 1);
        assert(t.take(n).drop_last() =~= t.take(n - 1));
        assert(t.take(n).last() == t[n - 1]);
        lemma_after_cluster(after_trace(t.take(n - 1), k), t, counts, n - 1, w0)
    }
}

/// Placing what is left of constraints `c..` keeps the schedule balanced and completes them.
pub proof fn lemma_flushed(st: Schedule, counts: Seq<usize>, c: int, w: int, done: int) -> (w2: int)
    requires
        0 <= c <= counts.len(),
        balanced(st, counts, 0, w, done),
    ensures
        balanced(flushed(st, counts, c), counts, 0, w2, done),
        w <= w2,
        forall|j: int| c <= j < counts.len() ==> flushed(st, counts, c).placed[j] == counts[j],
        forall|j: int| 0 <= j < c ==> flushed(st, counts, c).placed[j] == st.placed[j],
    decreases counts.len() - c,
{
    if c >= counts.len() {
        w
    } else {
        assert(st.frames[c].len() == st.placed[c] + 1);
        lemma_singletons(st, counts, c, 0, w, done, counts[c] as int);
        assert(flush_step(st, counts, c).placed[c] == counts[c]);
        assert forall|j: int| 0 <= j < c implies flush_step(st, counts, c).placed[j]
            == st.placed[j] by {}
        lemma_flushed(
            flush_step(st, counts, c),
            counts,
            c + 1,
            w + pending(st.placed[c], counts[c] as int),
            done,
        )
    }
}

/// The frames of a trace have one entry per column and one more, and every constraint spans
/// the same number of merged columns: its gaps and its columns add up to one width.
pub proof fn lemma_frame_width_uniform(t: Seq<Seq<Pos>>, counts: Seq<usize>)
    requires
        is_trace(t, counts),
    ensures
        frames_of(t, counts).len() == counts.len(),
        forall|j: int|
            0 <= j < counts.len() ==> (#[trigger] frames_of(t, counts)[j]).len() == counts[j] + 1,
        forall|a: int, b: int|
            0 <= a < counts.len() && 0 <= b < counts.len() ==> row_sum(frames_of(t, counts)[a])
                + counts[a] == row_sum(frames_of(t, counts)[b]) + counts[b],
        forall|j: int|
            0 <= j < counts.len() ==> row_sum(#[trigger] frames_of(t, counts)[j]) + counts[j]
                <= t.len() + total_columns(counts),
{
    let k = counts.len();
    let w = lemma_after_trace(t, counts, t.len() as int);
    assert(t.take(t.len() as int) =~= t);
    let st = after_trace(t, k);
    let w2 = lemma_flushed(st, counts, 0, w, t.len() as int);
    let fin = flushed(st, counts, 0);
    lemma_total_le(fin.placed, counts);
    assert forall|j: int| 0 <= j < k implies row_sum(#[trigger] fin.frames[j]) + counts[j] == w2 by {
        assert(row_width(fin.frames[j]) == w2);
    }
}


/// One row of frames as numbers.
pub open spec fn row_view(r: Seq<u32>) -> Seq<nat> {
    Seq::new(r.len(), |i: int| r[i] as nat)
}

proof fn lemma_last_le_sum(row: Seq<nat>)
    requires
        row.len() > 0,
    ensures
        row.last() <= row_sum(row),
{
}

proof fn lemma_count_le_total(counts: Seq<usize>, c: int)
    requires
        0 <= c < counts.len(),
    ensures
        counts[c] <= total_columns(counts),
    decreases counts.len(),
{
    if c < counts.len() - 1 {
        lemma_count_le_total(counts.drop_last(), c);
    }
}

proof fn lemma_balanced_bound(st: Schedule, counts: Seq<usize>, c: int, w: int, done: int)
    requires
        balanced(st, counts, c, w, done),
    ensures
        w <= done + total_columns(counts),
        forall|j: int|
            0 <= j < counts.len() ==> (#[trigger] st.frames[j]).len() > 0 && st.frames[j].last()
                <= w + (if j < c {
                1int
            } else {
                0int
            }),
{
    assert forall|j: int| 0 <= j < st.placed.len() implies st.placed[j] <= counts[j] by {
        assert(st.frames[j].len() == st.placed[j] + 1);
    }
    lemma_total_le(st.placed, counts);
    assert forall|j: int| 0 <= j < counts.len() implies (#[trigger] st.frames[j]).len() > 0
        && st.frames[j].last() <= w + (if j < c {
        1int
    } else {
        0int
    }) by {
        assert(st.frames[j].len() == st.placed[j] + 1);
        lemma_last_le_sum(st.frames[j]);
    }
}

/// In a cluster that lists its columns by rising constraint, the column at `idx` is the
/// column of its constraint.
proof fn lemma_column_at(cl: Seq<Pos>, idx: int, c: int)
    requires
        crate::cluster::sorted_by_constraint(cl),
        0 <= idx < cl.len(),
        cl[idx].0 == c,
    ensures
        has_constraint(cl, c),
        column_in(cl, c) == cl[idx].1,
{
    let i = choose|i: int| 0 <= i < cl.len() && (#[trigger] cl[i]).0 == c;
    if i < idx {
        assert(cl[i].0 < cl[idx].0);
    } else if i > idx {
        assert(cl[idx].0 < cl[i].0);
    }
}

/// In a cluster that lists its columns by rising constraint, a constraint below that of the
/// column at `idx` and above those before it has no column.
proof fn lemma_no_column_at(cl: Seq<Pos>, idx: int, c: int)
    requires
        crate::cluster::sorted_by_constraint(cl),
        0 <= idx <= cl.len(),
        forall|a: int| 0 <= a < idx ==> (#[trigger] cl[a]).0 < c,
        forall|a: int| idx <= a < cl.len() ==> (#[trigger] cl[a]).0 >= c,
        idx < cl.len() ==> cl[idx].0 != c,
    ensures
        !has_constraint(cl, c),
{
    if has_constraint(cl, c) {
        let i = choose|i: int| 0 <= i < cl.len() && (#[trigger] cl[i]).0 == c;
        if i > idx {
            assert(cl[idx].0 < cl[i].0);
        }
    }
}

proof fn lemma_no_singletons(f: Seq<Seq<nat>>, c: int)
    requires
        forall|j: int| 0 <= j < f.len() ==> (#[trigger] f[j]).len() > 0,
    ensures
        with_singletons(f, c, 0) == f,
{
    assert forall|j: int| 0 <= j < f.len() implies with_singletons(f, c, 0)[j] == f[j] by {
        assert(f[j] + zeros(0) =~= f[j]);
        assert(add_last(f[j], 0) =~= f[j]);
    }
    assert(with_singletons(f, c, 0) =~= f);
}

/// Adds `by` gaps at the end of a row.
fn bump_last(row: &mut Vec<u32>, by: u32)
    requires
        old(row)@.len() > 0,
        old(row)@.last() + by <= u32::MAX,
    ensures
        row_view(final(row)@) == add_last(row_view(old(row)@), by as nat),
{
    let l = row.len();
    let v = row[l - 1];
    row[l - 1] = v + by;
    assert(row_view(row@) =~= add_last(row_view(old(row)@), by as nat));
}

/// Appends `s` columns without gaps to a row.
fn push_zeros(row: &mut Vec<u32>, s: u32)
    ensures
        row_view(final(row)@) == row_view(old(row)@) + zeros(s as nat),
{
    let ghost before = row@;
    let mut i: u32 = 0;
    while i < s
        invariant
            i <= s,
            row@.len() == before.len() + i,
            forall|a: int| 0 <= a < before.len() ==> row@[a] == before[a],
            forall|a: int| before.len() <= a < row@.len() ==> row@[a] == 0,
        decreases s - i,
    {
        row.push(0);
        i += 1;
    }
    assert(row_view(row@) =~= row_view(before) + zeros(s as nat));
}

/// Makes `s` merged columns that hold only constraint `c`.
fn emit_singletons(frames: &mut Vec<Vec<u32>>, c: usize, s: u32)
    requires
        c < old(frames)@.len(),
        forall|j: int| 0 <= j < old(frames)@.len() ==> (#[trigger] old(frames)@[j])@.len() > 0,
        forall|j: int|
            0 <= j < old(frames)@.len() && j != c ==> (#[trigger] old(frames)@[j])@.last() + s
                <= u32::MAX,
    ensures
        frames_view(final(frames)@) == with_singletons(
            frames_view(old(frames)@),
            c as int,
            s as nat,
        ),
{
    let k = frames.len();
    let ghost before = frames_view(frames@);
    let mut j: usize = 0;
    while j < k
        invariant
            j <= k,
            k == frames@.len(),
            k == old(frames)@.len(),
            c < k,
            before == frames_view(old(frames)@),
            forall|a: int| j <= a < k ==> #[trigger] frames@[a] == old(frames)@[a],
            forall|a: int|
                0 <= a < j ==> row_view((#[trigger] frames@[a])@) == with_singletons(
                    before,
                    c as int,
                    s as nat,
                )[a],
            forall|a: int| 0 <= a < k ==> (#[trigger] old(frames)@[a])@.len() > 0,
            forall|a: int|
                0 <= a < k && a != c ==> (#[trigger] old(frames)@[a])@.last() + s <= u32::MAX,
        decreases k - j,
    {
        assert(frames@[j as int] == old(frames)@[j as int]);
        assert(before[j as int] == row_view(old(frames)@[j as int]@));
        if j == c {
            push_zeros(&mut frames[j], s);
        } else {
            bump_last(&mut frames[j], s);
        }
        j += 1;
    }
    assert(frames_view(frames@) =~= with_singletons(before, c as int, s as nat));
}

/// The frames of a trace: for each constraint, the number of gap columns to insert before
/// each of its columns, and after the last.
pub fn build_frames(state: &AlnState, res: &ClusteringResult) -> (frames: Vec<Vec<u32>>)
    requires
        is_sorted_trace(res@, state.column_counts@),
        res@.len() + total_columns(state.column_counts@) <= u32::MAX,
    ensures
        frames_view(frames@) == frames_of(res@, state.column_counts@),
        frames@.len() == state.column_counts@.len(),
        forall|j: int|
            0 <= j < frames@.len() ==> (#[trigger] frames@[j])@.len() == state.column_counts@[j]
                + 1,
        forall|a: int, b: int|
            0 <= a < frames@.len() && 0 <= b < frames@.len() ==> row_sum(row_view(frames@[a]@))
                + state.column_counts@[a] == row_sum(row_view(frames@[b]@))
                + state.column_counts@[b],
{
    let k = state.column_counts.len();
    let ghost counts = state.column_counts@;
    let ghost t = res@;
    let mut last_frontier: Vec<i64> = Vec::new();
    let mut skip_frames: Vec<Vec<u32>> = Vec::new();
    let mut j: usize = 0;
    while j < k
        invariant
            j <= k,
            last_frontier@.len() == j,
            skip_frames@.len() == j,
            forall|a: int| 0 <= a < j ==> last_frontier@[a] == -1,
            forall|a: int| 0 <= a < j ==> (#[trigger] skip_frames@[a])@ == seq![0u32],
        decreases k - j,
    {
        last_frontier.push(-1);
        let mut row: Vec<u32> = Vec::new();
        row.push(0);
        assert(row@ =~= seq![0u32]);
        skip_frames.push(row);
        j += 1;
    }
    let ghost mut st = start(k as nat);
    let ghost mut w: int = 0;
    proof {
        let w0 = lemma_after_trace(t, counts, 0);
        assert(t.take(0) =~= Seq::<Seq<Pos>>::empty());
        w = w0;
        assert forall|a: int| 0 <= a < k implies frames_view(skip_frames@)[a] == st.frames[a] by {
            assert(row_view(seq![0u32]) =~= seq![0nat]);
        }
        assert(frames_view(skip_frames@) =~= st.frames);
        lemma_frame_width_uniform(t, counts);
    }
    let n_clusters = res.clusters.len();
    let mut n: usize = 0;
    while n < n_clusters
        invariant
            n <= n_clusters,
            n_clusters == res.clusters@.len(),
            t == res@,
            counts == state.column_counts@,
            k == counts.len(),
            is_sorted_trace(t, counts),
            t.len() + total_columns(counts) <= u32::MAX,
            st == after_trace(t.take(n as int), k as nat),
            frames_view(skip_frames@) == st.frames,
            last_frontier@.len() == k,
            skip_frames@.len() == k,
            forall|a: int| 0 <= a < k ==> #[trigger] last_frontier@[a] + 1 == st.placed[a],
            balanced(st, counts, 0, w, n as int),
            reached(st.placed, t, n as int),
        decreases n_clusters - n,
    {
        let tr = &res.clusters[n];
        assert(tr@ == t[n as int]);
        assert(crate::cluster::sorted_by_constraint(t[n as int]));
        assert(crate::cluster::distinct_constraints(t[n as int]));
        assert(crate::cluster::cluster_in_range(t[n as int], counts));
        let ghost st0 = st;
        let ghost placed0 = st.placed;
        // the columns that lie before those of the cluster come first
        let mut idx: usize = 0;
        let mut c: usize = 0;
        assert(progress(st.placed, placed0, tr@, 0, 0));
        while c < k
            invariant
                c <= k,
                n < n_clusters,
                n_clusters == res.clusters@.len(),
                t == res@,
                tr@ == t[n as int],
                counts == state.column_counts@,
                k == counts.len(),
                is_sorted_trace(t, counts),
                t.len() + total_columns(counts) <= u32::MAX,
                placed0.len() == k,
                reached(placed0, t, n as int),
                lead_ins(st, tr@, c as int, k as int) == lead_ins(st0, tr@, 0, k as int),
                frames_view(skip_frames@) == st.frames,
                last_frontier@.len() == k,
                skip_frames@.len() == k,
                forall|a: int| 0 <= a < k ==> #[trigger] last_frontier@[a] + 1 == st.placed[a],
                balanced(st, counts, 0, w, n as int),
                progress(st.placed, placed0, tr@, c as int, 0),
                idx <= tr@.len(),
                forall|a: int| 0 <= a < idx ==> (#[trigger] tr@[a]).0 < c,
                forall|a: int| idx <= a < tr@.len() ==> (#[trigger] tr@[a]).0 >= c,
            decreases k - c,
        {
            let ghost w2;
            proof {
                w2 = lemma_lead_in(st, placed0, t, counts, n as int, c as int, w);
                lemma_balanced_bound(lead_in(st, tr@, c as int), counts, 0, w2, n as int);
                lemma_balanced_bound(st, counts, 0, w, n as int);
                assert forall|a: int| 0 <= a < k implies (#[trigger] skip_frames@[a])@.len() > 0
                    && skip_frames@[a]@.last() <= w by {
                    assert(st.frames[a] == row_view(skip_frames@[a]@));
                    assert(st.frames[a].len() > 0);
                    assert(row_view(skip_frames@[a]@).last() == skip_frames@[a]@.last());
                }
            }
            if idx < tr.len() && tr[idx].0 as usize == c {
                let col = tr[idx].1;
                proof {
                    lemma_column_at(tr@, idx as int, c as int);
                    assert(st.placed[c as int] == placed0[c as int]);
                    lemma_next_column(placed0, t, counts, n as int, c as int);
                }
                let gap: i64 = col as i64 - last_frontier[c] - 1;
                assert(gap == col - st.placed[c as int]);
                if gap > 0 {
                    emit_singletons(&mut skip_frames, c, gap as u32);
                    last_frontier[c] = col as i64 - 1;
                } else {
                    proof {
                        assert forall|a: int| 0 <= a < st.frames.len() implies (
                        #[trigger] st.frames[a]).len() > 0 by {
                            assert(st.frames[a].len() == st.placed[a] + 1);
                        }
                        lemma_no_singletons(st.frames, c as int);
                    }
                }
                idx += 1;
                proof {
                    assert forall|a: int| idx <= a < tr@.len() implies (#[trigger] tr@[a]).0 >= c
                        + 1 by {
                        assert(tr@[idx - 1].0 < tr@[a].0);
                    }
                }
            } else {
                proof {
                    lemma_no_column_at(tr@, idx as int, c as int);
                }
            }
            proof {
                st = lead_in(st, tr@, c as int);
                w = w2;
            }
            c += 1;
        }
        // then the cluster becomes one merged column
        let ghost st1 = st;
        let mut idx: usize = 0;
        let mut c: usize = 0;
        while c < k
            invariant
                c <= k,
                n < n_clusters,
                n_clusters == res.clusters@.len(),
                t == res@,
                tr@ == t[n as int],
                counts == state.column_counts@,
                k == counts.len(),
                is_sorted_trace(t, counts),
                t.len() + total_columns(counts) <= u32::MAX,
                columns(st, tr@, c as int, k as int) == columns(st1, tr@, 0, k as int),
                frames_view(skip_frames@) == st.frames,
                last_frontier@.len() == k,
                skip_frames@.len() == k,
                forall|a: int| 0 <= a < k ==> #[trigger] last_frontier@[a] + 1 == st.placed[a],
                balanced(st, counts, c as int, w, n as int),
                progress(st.placed, placed0, tr@, k as int, c as int),
                idx <= tr@.len(),
                forall|a: int| 0 <= a < idx ==> (#[trigger] tr@[a]).0 < c,
                forall|a: int| idx <= a < tr@.len() ==> (#[trigger] tr@[a]).0 >= c,
            decreases k - c,
        {
            proof {
                lemma_cluster_step(st, placed0, counts, tr@, c as int, w, n as int);
                lemma_balanced_bound(cluster_step(st, tr@, c as int), counts, c + 1, w, n as int);
                lemma_balanced_bound(st, counts, c as int, w, n as int);
                assert forall|a: int| 0 <= a < k implies (#[trigger] skip_frames@[a])@.len() > 0
                    && skip_frames@[a]@.last() <= w + 1 by {
                    assert(st.frames[a] == row_view(skip_frames@[a]@));
                    assert(st.frames[a].len() > 0);
                    assert(row_view(skip_frames@[a]@).last() == skip_frames@[a]@.last());
                }
                assert(skip_frames@[c as int]@.last() <= w);
            }
            if idx < tr.len() && tr[idx].0 as usize == c {
                proof {
                    lemma_column_at(tr@, idx as int, c as int);
                }
                last_frontier[c] = last_frontier[c] + 1;
                push_zeros(&mut skip_frames[c], 1);
                idx += 1;
                proof {
                    assert(st.frames[c as int] + zeros(1) =~= st.frames[c as int].push(0));
                    assert(frames_view(skip_frames@) =~= with_column(st.frames, c as int));
                    assert forall|a: int| idx <= a < tr@.len() implies (#[trigger] tr@[a]).0 >= c
                        + 1 by {
                        assert(tr@[idx - 1].0 < tr@[a].0);
                    }
                }
            } else {
                proof {
                    lemma_no_column_at(tr@, idx as int, c as int);
                }
                bump_last(&mut skip_frames[c], 1);
                proof {
                    assert(frames_view(skip_frames@) =~= with_gap(st.frames, c as int));
                }
            }
            proof {
                st = cluster_step(st, tr@, c as int);
            }
            c += 1;
        }
        proof {
            lemma_cluster_done(st, placed0, t, counts, n as int, w);
            assert(t.take(n + 1).drop_last() =~= t.take(n as int));
            assert(t.take(n + 1).last() == t[n as int]);
            w = w + 1;
        }
        n += 1;
    }
    let ghost st1 = st;
    let mut c: usize = 0;
    while c < k
        invariant
            c <= k,
            n == n_clusters,
            n_clusters == t.len(),
            counts == state.column_counts@,
            k == counts.len(),
            t.len() + total_columns(counts) <= u32::MAX,
            flushed(st, counts, c as int) == flushed(st1, counts, 0),
            frames_view(skip_frames@) == st.frames,
            last_frontier@.len() == k,
            skip_frames@.len() == k,
            forall|a: int| 0 <= a < k ==> #[trigger] last_frontier@[a] + 1 == st.placed[a],
            balanced(st, counts, 0, w, n as int),
        decreases k - c,
    {
        let cnt = state.column_counts[c];
        proof {
            lemma_count_le_total(counts, c as int);
            assert(st.frames[c as int].len() == st.placed[c as int] + 1);
            lemma_singletons(st, counts, c as int, 0, w, n as int, cnt as int);
            lemma_balanced_bound(
                flush_step(st, counts, c as int),
                counts,
                0,
                w + pending(st.placed[c as int], cnt as int),
                n as int,
            );
            lemma_balanced_bound(st, counts, 0, w, n as int);
            assert forall|a: int| 0 <= a < k implies (#[trigger] skip_frames@[a])@.len() > 0
                && skip_frames@[a]@.last() <= w by {
                assert(st.frames[a] == row_view(skip_frames@[a]@));
                assert(st.frames[a].len() > 0);
                assert(row_view(skip_frames@[a]@).last() == skip_frames@[a]@.last());
            }
        }
        let gap: i64 = cnt as i64 - last_frontier[c] - 1;
        assert(gap == cnt - st.placed[c as int]);
        if gap > 0 {
            emit_singletons(&mut skip_frames, c, gap as u32);
        } else {
            proof {
                assert forall|a: int| 0 <= a < st.frames.len() implies (#[trigger] st.frames[a]).len()
                    > 0 by {
                    assert(st.frames[a].len() == st.placed[a] + 1);
                }
                lemma_no_singletons(st.frames, c as int);
            }
        }
        last_frontier[c] = cnt as i64 - 1;
        proof {
            w = w + pending(st.placed[c as int], cnt as int);
            st = flush_step(st, counts, c as int);
        }
        c += 1;
    }
    proof {
        assert(t.take(t.len() as int) =~= t);
        assert forall|j: int| 0 <= j < k implies row_view(#[trigger] skip_frames@[j]@) == frames_of(
            t,
            counts,
        )[j] by {}
    }
    skip_frames
}

} // verus!
