use vstd::prelude::*;
use crate::aln::Record;
use crate::cluster::{ClusteringResult, Graph, Pos};
use crate::error::GcmError;
use crate::merge::{
    built_from, coord_at, glue_clean_before, glue_fault, lemma_residues_rise, residues_upto,
    state_fault, state_from_constraints, stored_graph, stored_graph_fault,
};
use crate::naive_upgma::lex_lt;
use crate::state::AlnState;
use crate::weave::{is_gap, DOT, GAP};

verus! {

/// What the scorer tells of a merged alignment: the number of its clusters and its score.
#[derive(Debug)]
pub struct ScorerOutput {
    pub num_clusters: usize,
    pub mwt_am: u64,
}

impl ScorerOutput {
    /// The output with the given values.
    pub fn new(num_clusters: usize, mwt_am: u64) -> (r: Self)
        ensures
            r.num_clusters == num_clusters,
            r.mwt_am == mwt_am,
    {
        Self { num_clusters, mwt_am }
    }
}

/// Whether one of the first `n` rows has a residue in column `col` that stands in column
/// `p` of its constraint.
pub open spec fn in_column(state: AlnState, recs: Seq<Record>, n: int, col: int, p: Pos) -> bool {
    exists|r: int|
        0 <= r < n && col < recs[r].seq@.len() && !is_gap(#[trigger] recs[r].seq@[col]) && coord_at(
            state,
            recs[r],
            col,
        ) == p
}

/// Whether one of the first `n` rows has a residue in column `col`.
pub open spec fn column_used(recs: Seq<Record>, n: int, col: int) -> bool {
    exists|r: int| 0 <= r < n && col < recs[r].seq@.len() && !is_gap(#[trigger] recs[r].seq@[col])
}

/// The columns rise: by constraint, and within a constraint by column.
pub open spec fn lex_rising(c: Seq<Pos>) -> bool {
    forall|i: int, j: int| 0 <= i < j < c.len() ==> lex_lt(c[i], c[j])
}

/// The cluster holds, in rising order, the columns of the constraints that the first `n`
/// rows have in column `col` of the alignment.
pub open spec fn is_column_cluster(c: Seq<Pos>, state: AlnState, recs: Seq<Record>, n: int, col: int) -> bool {
    lex_rising(c) && forall|p: Pos| #[trigger] c.contains(p) <==> in_column(state, recs, n, col, p)
}

/// The columns among the first `w` of an alignment in which a row has a residue.
pub open spec fn used_columns(recs: Seq<Record>, w: int) -> Seq<int>
    decreases w,
{
    if w <= 0 {
        Seq::empty()
    } else if column_used(recs, recs.len() as int, w - 1) {
        used_columns(recs, w - 1).push(w - 1)
    } else {
        used_columns(recs, w - 1)
    }
}

/// Puts the column into a rising list, unless it is there.
fn insert_lex(v: &mut Vec<(u32, u32)>, p: (u32, u32))
    requires
        lex_rising(old(v)@),
    ensures
        lex_rising(final(v)@),
        forall|q: Pos| #[trigger] final(v)@.contains(q) <==> old(v)@.contains(q) || q == p,
{
    let n = v.len();
    let mut i: usize = 0;
    while i < n && (v[i].0 < p.0 || (v[i].0 == p.0 && v[i].1 < p.1))
        invariant
            i <= n,
            n == v@.len(),
            v@ == old(v)@,
            forall|k: int| 0 <= k < i ==> lex_lt(v@[k], p),
        decreases n - i,
    {
        i += 1;
    }
    if i < n && v[i].0 == p.0 && v[i].1 == p.1 {
        assert(v@[i as int] == p);
        return ;
    }
    let ghost before = v@;
    v.insert(i, p);
    proof {
        assert(v@[i as int] == p);
        assert forall|a: int, b: int| 0 <= a < b < v@.len() implies lex_lt(v@[a], v@[b]) by {
            if a < i && b > i {
                if a < b - 1 {
                    assert(lex_lt(before[a], before[b - 1]));
                }
            } else if a == i {
                if i < b - 1 {
                    assert(lex_lt(before[i as int], before[b - 1]));
                }
            }
        }
        assert forall|q: Pos| #[trigger] v@.contains(q) implies before.contains(q) || q == p by {
            let k = choose|k: int| 0 <= k < v@.len() && v@[k] == q;
            if k < i {
                assert(before[k] == q);
            } else if k > i {
                assert(before[k - 1] == q);
            }
        }
        assert forall|q: Pos| before.contains(q) || q == p implies #[trigger] v@.contains(q) by {
            if before.contains(q) {
                let k = choose|k: int| 0 <= k < before.len() && before[k] == q;
                if k < i {
                    assert(v@[k] == q);
                } else {
                    assert(v@[k + 1] == q);
                }
            }
        }
    }
}

/// The trace that a merged alignment shows: for each of its columns in which a row has a
/// residue, the cluster of the columns of the constraints that the rows have there. The
/// first row with an unknown name, a length unlike that of the first row, or more residues
/// than its sequence fails as a row of a glue does.
pub fn trace_from_alignment(state: &AlnState, alignment: &Vec<Record>) -> (r: Result<
    ClusteringResult,
    GcmError,
>)
    requires
        state.wf(),
    ensures
        match r {
            Ok(t) => {
                let recs = alignment@;
                let used = used_columns(recs, if recs.len() > 0 {
                    recs[0].seq@.len() as int
                } else {
                    0
                });
                &&& glue_clean_before(*state, recs, recs.len() as int)
                &&& t@.len() == used.len()
                &&& forall|x: int|
                    0 <= x < used.len() ==> is_column_cluster(
                        #[trigger] t@[x],
                        *state,
                        recs,
                        recs.len() as int,
                        used[x],
                    )
                &&& t.mwt_am == 0
            },
            Err(e) => exists|i: int|
                0 <= i < alignment@.len() && glue_clean_before(*state, alignment@, i)
                    && #[trigger] glue_fault(*state, alignment@, i) == Some(e),
        },
{
    let ghost recs = alignment@;
    let mut trace: Vec<Vec<(u32, u32)>> = Vec::new();
    let n = alignment.len();
    let mut i: usize = 0;
    while i < n
        invariant
            i <= n,
            n == recs.len(),
            recs == alignment@,
            state.wf(),
            glue_clean_before(*state, recs, i as int),
            i > 0 ==> trace@.len() == recs[0].seq@.len(),
            i == 0 ==> trace@.len() == 0,
            forall|c: int|
                0 <= c < trace@.len() ==> is_column_cluster(
                    (#[trigger] trace@[c])@,
                    *state,
                    recs,
                    i as int,
                    c,
                ),
        decreases n - i,
    {
        let rec = &alignment[i];
        let id = match state.lookup(rec.name.as_str()) {
            Some(id) => id,
            None => {
                assert(glue_fault(*state, recs, i as int) == Some(GcmError::UnknownSequence));
                return Err(GcmError::UnknownSequence);
            },
        };
        let width = rec.seq.len();
        if i == 0 {
            let mut c: usize = 0;
            while c < width
                invariant
                    c <= width,
                    trace@.len() == c,
                    forall|x: int| 0 <= x < c ==> (#[trigger] trace@[x])@.len() == 0,
                decreases width - c,
            {
                trace.push(Vec::new());
                c += 1;
            }
            proof {
                assert forall|c: int| 0 <= c < trace@.len() implies is_column_cluster(
                    (#[trigger] trace@[c])@,
                    *state,
                    recs,
                    0,
                    c,
                ) by {
                    assert forall|p: Pos| #[trigger] trace@[c]@.contains(p) <==> in_column(
                        *state,
                        recs,
                        0,
                        c,
                        p,
                    ) by {
                        if trace@[c]@.contains(p) {
                            let k = choose|k: int| 0 <= k < trace@[c]@.len() && trace@[c]@[k] == p;
                        }
                    }
                }
            }
        } else if width != trace.len() {
            assert(glue_fault(*state, recs, i as int) == Some(GcmError::RaggedAlignment));
            return Err(GcmError::RaggedAlignment);
        }
        assert(state.names_wf());
        assert(id < state.s@.len());
        let row = &state.s[id];
        let mut residues: usize = 0;
        let mut col: usize = 0;
        while col < width
            invariant
                col <= width,
                width == rec.seq@.len(),
                residues == residues_upto(rec.seq@, col as int),
                residues <= col,
            decreases width - col,
        {
            if rec.seq[col] != GAP && rec.seq[col] != DOT {
                residues += 1;
            }
            col += 1;
        }
        if residues > row.len() {
            assert(glue_fault(*state, recs, i as int) == Some(GcmError::ResidueMismatch));
            return Err(GcmError::ResidueMismatch);
        }
        assert(glue_fault(*state, recs, i as int).is_none());
        let mut non_gap: usize = 0;
        let mut col: usize = 0;
        while col < width
            invariant
                col <= width,
                width == rec.seq@.len(),
                width == trace@.len(),
                i < n,
                n == recs.len(),
                recs == alignment@,
                rec == recs[i as int],
                id == state.id_of(rec.name@),
                non_gap == residues_upto(rec.seq@, col as int),
                residues == residues_upto(rec.seq@, width as int),
                residues <= row@.len(),
                row@ == state.s@[id as int]@,
                forall|c: int|
                    0 <= c < trace@.len() ==> is_column_cluster(
                        (#[trigger] trace@[c])@,
                        *state,
                        recs,
                        if c < col {
                            i + 1
                        } else {
                            i as int
                        },
                        c,
                    ),
            decreases width - col,
        {
            let ghost t0 = trace@;
            if rec.seq[col] != GAP && rec.seq[col] != DOT {
                proof {
                    lemma_residues_rise(rec.seq@, col as int + 1, width as int);
                }
                let p = row[non_gap];
                assert(p == coord_at(*state, *rec, col as int));
                insert_lex(&mut trace[col], p);
                proof {
                    assert forall|q: Pos| #[trigger] trace@[col as int]@.contains(q) <==> in_column(
                        *state,
                        recs,
                        i + 1,
                        col as int,
                        q,
                    ) by {
                        assert(t0[col as int]@.contains(q) <==> in_column(
                            *state,
                            recs,
                            i as int,
                            col as int,
                            q,
                        ));
                        if in_column(*state, recs, i + 1, col as int, q) {
                            let r = choose|r: int|
                                0 <= r < i + 1 && col < recs[r].seq@.len() && !is_gap(
                                    #[trigger] recs[r].seq@[col as int],
                                ) && coord_at(*state, recs[r], col as int) == q;
                            if r < i {
                                assert(in_column(*state, recs, i as int, col as int, q));
                            }
                        }
                        if in_column(*state, recs, i as int, col as int, q) {
                            let r = choose|r: int|
                                0 <= r < i && col < recs[r].seq@.len() && !is_gap(
                                    #[trigger] recs[r].seq@[col as int],
                                ) && coord_at(*state, recs[r], col as int) == q;
                            assert(0 <= r < i + 1);
                        }
                        if q == p {
                            assert(!is_gap(recs[i as int].seq@[col as int]));
                        }
                    }
                }
                non_gap += 1;
            } else {
                proof {
                    assert forall|q: Pos| #[trigger] trace@[col as int]@.contains(q) <==> in_column(
                        *state,
                        recs,
                        i + 1,
                        col as int,
                        q,
                    ) by {
                        assert(t0[col as int]@.contains(q) <==> in_column(
                            *state,
                            recs,
                            i as int,
                            col as int,
                            q,
                        ));
                        if in_column(*state, recs, i + 1, col as int, q) {
                            let r = choose|r: int|
                                0 <= r < i + 1 && col < recs[r].seq@.len() && !is_gap(
                                    #[trigger] recs[r].seq@[col as int],
                                ) && coord_at(*state, recs[r], col as int) == q;
                            assert(r < i);
                        }
                        if in_column(*state, recs, i as int, col as int, q) {
                            let r = choose|r: int|
                                0 <= r < i && col < recs[r].seq@.len() && !is_gap(
                                    #[trigger] recs[r].seq@[col as int],
                                ) && coord_at(*state, recs[r], col as int) == q;
                            assert(0 <= r < i + 1);
                        }
                    }
                }
            }
            proof {
                assert forall|c: int| 0 <= c < trace@.len() implies is_column_cluster(
                    (#[trigger] trace@[c])@,
                    *state,
                    recs,
                    if c < col + 1 {
                        i + 1
                    } else {
                        i as int
                    },
                    c,
                ) by {
                    if c != col {
                        assert(trace@[c] == t0[c]);
                    }
                }
            }
            col += 1;
        }
        i += 1;
    }
    let width = trace.len();
    let mut converted: Vec<Vec<(u32, u32)>> = Vec::new();
    let ghost mut used: Seq<int> = Seq::empty();
    let mut c: usize = 0;
    while c < width
        invariant
            c <= width,
            width == trace@.len(),
            n == recs.len(),
            n > 0 ==> width == recs[0].seq@.len(),
            n == 0 ==> width == 0,
            forall|x: int|
                c <= x < trace@.len() ==> is_column_cluster(
                    (#[trigger] trace@[x])@,
                    *state,
                    recs,
                    n as int,
                    x,
                ),
            used == used_columns(recs, c as int),
            converted@.len() == used.len(),
            forall|x: int|
                0 <= x < used.len() ==> is_column_cluster(
                    (#[trigger] converted@[x])@,
                    *state,
                    recs,
                    n as int,
                    used[x],
                ),
        decreases width - c,
    {
        let ghost col_cluster = trace@[c as int]@;
        assert(is_column_cluster(col_cluster, *state, recs, n as int, c as int));
        proof {
            // the column holds something exactly where a row has a residue in it
            if col_cluster.len() > 0 {
                assert(col_cluster.contains(col_cluster[0]));
                assert(in_column(*state, recs, n as int, c as int, col_cluster[0]));
                let r = choose|r: int|
                    0 <= r < n && c < recs[r].seq@.len() && !is_gap(
                        #[trigger] recs[r].seq@[c as int],
                    ) && coord_at(*state, recs[r], c as int) == col_cluster[0];
                assert(column_used(recs, n as int, c as int));
            }
            if column_used(recs, n as int, c as int) {
                let r = choose|r: int|
                    0 <= r < n && c < recs[r].seq@.len() && !is_gap(#[trigger] recs[r].seq@[c as int]);
                let p = coord_at(*state, recs[r], c as int);
                assert(in_column(*state, recs, n as int, c as int, p));
                assert(col_cluster.contains(p));
            }
        }
        if trace[c].len() > 0 {
            let mut taken: Vec<(u32, u32)> = Vec::new();
            core::mem::swap(&mut trace[c], &mut taken);
            let ghost u0 = used;
            let ghost c0 = converted@;
            converted.push(taken);
            proof {
                used = u0.push(c as int);
                assert forall|x: int| 0 <= x < used.len() implies is_column_cluster(
                    (#[trigger] converted@[x])@,
                    *state,
                    recs,
                    n as int,
                    used[x],
                ) by {
                    if x < u0.len() {
                        assert(converted@[x] == c0[x]);
                    }
                }
            }
        }
        proof {
            assert forall|x: int| c + 1 <= x < trace@.len() implies is_column_cluster(
                (#[trigger] trace@[x])@,
                *state,
                recs,
                n as int,
                x,
            ) by {}
        }
        c += 1;
    }
    let out = ClusteringResult::new(converted);
    proof {
        assert forall|x: int| 0 <= x < used.len() implies is_column_cluster(
            #[trigger] out@[x],
            *state,
            recs,
            recs.len() as int,
            used[x],
        ) by {
            assert(out@[x] == converted@[x]@);
        }
    }
    Ok(out)
}


/// The trace `t` is the one that the alignment shows on the state: one cluster for every
/// column in which a row has a residue, in the order of the columns.
pub open spec fn shown_trace(t: Seq<Seq<Pos>>, st: AlnState, recs: Seq<Record>) -> bool {
    let used = used_columns(recs, if recs.len() > 0 {
        recs[0].seq@.len() as int
    } else {
        0
    });
    &&& glue_clean_before(st, recs, recs.len() as int)
    &&& t.len() == used.len()
    &&& forall|x: int|
        0 <= x < used.len() ==> is_column_cluster(#[trigger] t[x], st, recs, recs.len() as int, used[x])
}

/// The outcome is that of scoring the trace `t`, which the alignment shows, on the graph.
pub open spec fn score_done(
    st: AlnState,
    g: Graph,
    t: Seq<Seq<Pos>>,
    constraints: Seq<Vec<Record>>,
    node_count: usize,
    triplets: Seq<(usize, usize, u64)>,
    alignment: Seq<Record>,
    num_clusters: usize,
    mwt_am: u64,
) -> bool {
    &&& built_from(st, constraints)
    &&& stored_graph(g, st.column_counts@, node_count, triplets)
    &&& shown_trace(t, st, alignment)
    &&& num_clusters == t.len()
    &&& mwt_am == g.score_of(t)
}

/// The stored graph fits the constraints, and a row of the alignment is faulty.
pub open spec fn shown_fault(
    st: AlnState,
    constraints: Seq<Vec<Record>>,
    node_count: usize,
    triplets: Seq<(usize, usize, u64)>,
    alignment: Seq<Record>,
    e: GcmError,
) -> bool {
    &&& built_from(st, constraints)
    &&& exists|g: Graph| #[trigger] stored_graph(g, st.column_counts@, node_count, triplets)
    &&& exists|i: int|
        0 <= i < alignment.len() && glue_clean_before(st, alignment, i) && #[trigger] glue_fault(
            st,
            alignment,
            i,
        ) == Some(e)
}

/// Scores a merged alignment on a stored graph: the trace that the alignment shows is
/// built, and its number of clusters and its score are told. Fails with the fault of the
/// constraints, else with that of the graph, else with that of the first faulty row of the
/// alignment.
pub fn oneshot_score_alignment(
    constraints: &Vec<Vec<Record>>,
    node_count: usize,
    triplets: &Vec<(usize, usize, u64)>,
    alignment: &Vec<Record>,
) -> (r: Result<ScorerOutput, GcmError>)
    requires
        crate::combined::input_fits(constraints@),
    ensures
        match r {
            Ok(o) => exists|st: AlnState, g: Graph, t: Seq<Seq<Pos>>| #[trigger]
                score_done(
                    st,
                    g,
                    t,
                    constraints@,
                    node_count,
                    triplets@,
                    alignment@,
                    o.num_clusters,
                    o.mwt_am,
                ),
            Err(e) => {
                ||| state_fault(constraints@, e)
                ||| exists|st: AlnState| #[trigger]
                    built_from(st, constraints@) && stored_graph_fault(
                        st.column_counts@,
                        node_count,
                        triplets@,
                        e,
                    )
                ||| exists|st: AlnState| #[trigger]
                    shown_fault(st, constraints@, node_count, triplets@, alignment@, e)
            },
        },
{
    let state = match state_from_constraints(constraints) {
        Ok(s) => s,
        Err(e) => {
            assert(state_fault(constraints@, e));
            return Err(e);
        },
    };
    assert(built_from(state, constraints@));
    let graph = match Graph::from_triplets(&state.column_counts, node_count, triplets) {
        Ok(g) => g,
        Err(e) => {
            return Err(e);
        },
    };
    assert(stored_graph(graph, state.column_counts@, node_count, triplets@));
    let trace = match trace_from_alignment(&state, alignment) {
        Ok(t) => t,
        Err(e) => {
            assert(shown_fault(state, constraints@, node_count, triplets@, alignment@, e));
            return Err(e);
        },
    };
    assert(shown_trace(trace@, state, alignment@));
    let score = trace.mwt_am_score(&state, &graph);
    let r: Result<ScorerOutput, GcmError> = Ok(ScorerOutput::new(trace.clusters.len(), score));
    assert(score_done(
        state,
        graph,
        trace@,
        constraints@,
        node_count,
        triplets@,
        alignment@,
        r->Ok_0.num_clusters,
        r->Ok_0.mwt_am,
    ));
    r
}

} // verus!
