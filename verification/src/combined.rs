use vstd::prelude::*;
use rand::rngs::SmallRng;
use crate::aln::Record;
use crate::cluster::{
    columns_of_lines, hosts, is_sorted_trace, is_trace, offset, parse_trace, together,
    ClusteringResult, GCMStep, Graph, Pos,
};
use crate::dp::{check_dp_fits, dp_fits};
use crate::error::GcmError;
use crate::exact_solver::{
    is_pair_below, lemma_sw_trace_shape, pair_weights, sw_algorithm, sw_trace,
};
use crate::kept::{lemma_trace_len, no_empty, same_columns};
use crate::bonds::hangs_together;
use crate::settle::{heaviest_cross, settled};
use crate::frames::{build_frames, frames_of, total_columns};
use crate::merge::{
    alignment_text, build_graph, built_from, clean_before, graph_fault, graph_fine, graph_weight,
    is_row, lemma_offset_total, merge_alignments_from_frames, row_clean, row_fits_frame, state_fault,
    state_from_constraints, stored_graph, stored_graph_fault, width_of,
};
use crate::naive_upgma::naive_upgma;
use crate::progressive::{iterative_refinement, refinement};
use crate::sims::NODE_CAP;
use crate::state::AlnState;

verus! {

/// Whether the rows are few and short enough for their columns to be numbered.
pub open spec fn input_fits(alns: Seq<Vec<Record>>) -> bool {
    &&& alns.len() < u32::MAX
    &&& forall|a: int, i: int| is_row(alns, a, i) ==> (#[trigger] alns[a]@[i]).seq@.len() <= u32::MAX
}

/// Whether the rows are few and short enough for their columns to be numbered.
pub fn check_input_fits(alns: &Vec<Vec<Record>>) -> (ok: bool)
    ensures
        ok == input_fits(alns@),
{
    if alns.len() >= u32::MAX as usize {
        return false;
    }
    let mut a: usize = 0;
    while a < alns.len()
        invariant
            a <= alns@.len(),
            forall|b: int, j: int|
                is_row(alns@, b, j) && b < a ==> (#[trigger] alns@[b]@[j]).seq@.len() <= u32::MAX,
        decreases alns.len() - a,
    {
        let mut i: usize = 0;
        while i < alns[a].len()
            invariant
                i <= alns@[a as int]@.len(),
                a < alns@.len(),
                forall|b: int, j: int|
                    is_row(alns@, b, j) && (b < a || (b == a && j < i)) ==> (
                    #[trigger] alns@[b]@[j]).seq@.len() <= u32::MAX,
            decreases alns[a as int].len() - i,
        {
            if alns[a][i].seq.len() > u32::MAX as usize {
                assert(is_row(alns@, a as int, i as int));
                return false;
            }
            i += 1;
        }
        a += 1;
    }
    true
}

/// The numbers of columns of the constraints.
pub open spec fn widths_of(alns: Seq<Vec<Record>>) -> Seq<usize> {
    Seq::new(alns.len(), |a: int| width_of(alns, a) as usize)
}

/// Whether the first trace is the best alignment of two constraints: there are two, the
/// tracer is not told to merge greedily, and the tables can be made.
pub open spec fn picks_exact(tracer_mode: GCMStep, counts: Seq<usize>) -> bool {
    &&& match tracer_mode {
        GCMStep::Upgma => false,
        _ => true,
    }
    &&& counts.len() == 2
    &&& dp_fits(counts[0] as int, counts[1] as int)
}

/// What greedy merging leaves: the clusters are not empty and hold the columns that have an
/// edge, each once; every cluster hangs together by edges; the two columns of every edge
/// stand in one cluster or in two of which one is bound to come before the other; and the
/// two columns of an edge between two constraints that is heavier than every other edge
/// stand in one cluster.
pub open spec fn merged_out(t: Seq<Seq<Pos>>, graph: Graph) -> bool {
    &&& forall|k: int|
        0 <= k < t.len() ==> hangs_together(#[trigger] t[k], graph.node_pos@, graph.sims.edges@)
    &&& forall|j: int|
        heaviest_cross(graph.node_pos@, graph.sims.edges@, j) ==> together(
            t,
            graph.node_pos@[(#[trigger] graph.sims.edges@[j]).u as int],
            graph.node_pos@[graph.sims.edges@[j].v as int],
        )
    &&& forall|i: int|
        0 <= i < graph.labels@.len() ==> hosts(t, graph.node_pos@[(#[trigger] graph.labels@[i]) as int])
    &&& forall|k: int, a: int|
        0 <= k < t.len() && 0 <= a < t[k].len() ==> graph.is_label(#[trigger] t[k][a])
    &&& forall|k: int| 0 <= k < t.len() ==> (#[trigger] t[k]).len() > 0
    &&& forall|j: int|
        0 <= j < graph.sims.edges@.len() ==> settled(
            t,
            graph.node_pos@[(#[trigger] graph.sims.edges@[j]).u as int],
            graph.node_pos@[graph.sims.edges@[j].v as int],
        )
}

/// The first trace of a graph: the best alignment where there are two constraints, the
/// tracer is not told to merge greedily and the tables can be made; else what greedy merging
/// gives.
pub fn first_trace(graph: &Graph, state: &AlnState, tracer_mode: GCMStep) -> (r: ClusteringResult)
    requires
        graph.wf(state.column_counts@),
    ensures
        is_sorted_trace(r@, state.column_counts@),
        r.mwt_am == 0,
        picks_exact(tracer_mode, state.column_counts@) ==> r@ == sw_trace(
            pair_weights(
                graph.sims,
                state.column_counts@[0] as int,
                state.column_counts@[1] as int,
            ),
            state.column_counts@[0] as int,
            state.column_counts@[1] as int,
        ),
        !picks_exact(tracer_mode, state.column_counts@) ==> merged_out(r@, *graph),
        no_empty(r@),
{
    proof {
        if state.column_counts@.len() == 2 {
            assert(offset(state.column_counts@, 2) == offset(state.column_counts@, 1)
                + state.column_counts@[1]);
            assert(offset(state.column_counts@, 1) == offset(state.column_counts@, 0)
                + state.column_counts@[0]);
            let n = state.column_counts@[0] as int;
            let m = state.column_counts@[1] as int;
            let t = sw_trace(pair_weights(graph.sims, n, m), n, m);
            lemma_sw_trace_shape(pair_weights(graph.sims, n, m), n, m);
            assert forall|x: int| 0 <= x < t.len() implies (#[trigger] t[x]).len() > 0 by {
                assert(is_pair_below(t[x], n, m));
            }
        }
    }
    let exact = match tracer_mode {
        GCMStep::Upgma => false,
        _ => state.column_counts.len() == 2,
    };
    if exact && check_dp_fits(state.column_counts[0], state.column_counts[1]) {
        sw_algorithm(graph, state)
    } else {
        naive_upgma(graph, state)
    }
}

/// The merged alignment of a trace as text.
pub fn write_merged(constraints: &Vec<Vec<Record>>, state: &AlnState, res: &ClusteringResult) -> (r:
    Result<Vec<u8>, GcmError>)
    requires
        is_sorted_trace(res@, state.column_counts@),
        state.column_counts@.len() == constraints@.len(),
        forall|a: int|
            0 <= a < constraints@.len() ==> #[trigger] state.column_counts@[a] == width_of(
                constraints@,
                a,
            ),
        clean_before(constraints@, constraints@.len() as int, 0),
        offset(state.column_counts@, state.column_counts@.len() as int) <= NODE_CAP,
    ensures
        match r {
            Ok(text) => res@.len() + total_columns(state.column_counts@) <= u32::MAX && text@
                == alignment_text(
                constraints@,
                frames_of(res@, state.column_counts@),
                constraints@.len() as int,
            ),
            Err(e) => e == GcmError::TooManyColumns && res@.len() + total_columns(
                state.column_counts@,
            ) > u32::MAX,
        },
{
    let ghost counts = state.column_counts@;
    let ghost alns = constraints@;
    proof {
        lemma_offset_total(counts, counts.len() as int);
        assert(counts.take(counts.len() as int) =~= counts);
    }
    let mut size: usize = 0;
    let mut k: usize = 0;
    while k < state.column_counts.len()
        invariant
            k <= counts.len(),
            counts == state.column_counts@,
            size == offset(counts, k as int),
            offset(counts, counts.len() as int) <= NODE_CAP,
        decreases state.column_counts.len() - k,
    {
        proof {
            crate::naive_upgma::lemma_offset_rises(counts, k as int + 1, counts.len() as int);
        }
        size = size + state.column_counts[k];
        k += 1;
    }
    if res.clusters.len() > u32::MAX as usize - size {
        return Err(GcmError::TooManyColumns);
    }
    let frames = build_frames(state, res);
    proof {
        assert forall|a: int, i: int| is_row(alns, a, i) && a < frames@.len() implies #[trigger] row_fits_frame(
            alns,
            frames@,
            a,
            i,
        ) by {
            assert(row_clean(alns, a, i));
            assert(counts[a] == width_of(alns, a));
        }
    }
    match merge_alignments_from_frames(constraints, &frames) {
        Ok(text) => Ok(text),
        Err(e) => Err(GcmError::TooManyColumns),
    }
}

/// The graph is the one that the glues give on the state: its nodes are the columns of the
/// constraints, and its weights those that the glues give.
pub open spec fn graph_built(
    g: Graph,
    st: AlnState,
    glues: Seq<Vec<Record>>,
    weights: Option<Vec<u64>>,
) -> bool {
    &&& g.wf(st.column_counts@)
    &&& forall|u: usize, v: usize|
        u < v ==> #[trigger] g.sims.weight(u, v) == graph_weight(
            st,
            glues,
            weights,
            glues.len() as int,
            u,
            v,
        )
}

/// The trace is a first trace of the graph: the best alignment where that is what the
/// tracer picks, else what greedy merging leaves.
pub open spec fn is_first_trace(t0: Seq<Seq<Pos>>, g: Graph, counts: Seq<usize>, mode: GCMStep) -> bool {
    &&& is_sorted_trace(t0, counts)
    &&& no_empty(t0)
    &&& picks_exact(mode, counts) ==> t0 == sw_trace(
        pair_weights(g.sims, counts[0] as int, counts[1] as int),
        counts[0] as int,
        counts[1] as int,
    )
    &&& !picks_exact(mode, counts) ==> merged_out(t0, g)
}

/// The text is the merged alignment of the constraints along the trace `t`, which is
/// refined from the first trace `t0` of the graph `g` that the glues give on the state.
pub open spec fn merge_done(
    st: AlnState,
    g: Graph,
    t0: Seq<Seq<Pos>>,
    t: Seq<Seq<Pos>>,
    constraints: Seq<Vec<Record>>,
    glues: Seq<Vec<Record>>,
    weights: Option<Vec<u64>>,
    mode: GCMStep,
    text: Seq<u8>,
) -> bool {
    &&& built_from(st, constraints)
    &&& graph_fine(st, glues, weights)
    &&& graph_built(g, st, glues, weights)
    &&& is_first_trace(t0, g, widths_of(constraints), mode)
    &&& refinement(t0, t, constraints.len() as int, g)
    &&& is_sorted_trace(t, widths_of(constraints))
    &&& same_columns(t0, t)
    &&& no_empty(t)
    &&& g.score_of(t) >= g.score_of(t0)
    &&& text == alignment_text(
        constraints,
        frames_of(t, widths_of(constraints)),
        constraints.len() as int,
    )
}

/// A state and a graph are had of the constraints and the glues, and the constraints have
/// so many columns that twice their number is more than a frame can count.
pub open spec fn merge_too_wide(
    st: AlnState,
    constraints: Seq<Vec<Record>>,
    glues: Seq<Vec<Record>>,
    weights: Option<Vec<u64>>,
) -> bool {
    &&& built_from(st, constraints)
    &&& graph_fine(st, glues, weights)
    &&& 2 * total_columns(widths_of(constraints)) > u32::MAX
}

/// Merges the constraints along the glues: the state is built, the graph, a first trace,
/// the trace is refined, and the merged alignment is written as text. Fails with the fault
/// of the constraints, else with that of the glues, else with `TooManyColumns` where twice
/// the columns of the constraints are more than a frame can count; succeeds else.
pub fn oneshot_merge_alignments(
    constraints: &Vec<Vec<Record>>,
    glues: &Vec<Vec<Record>>,
    tracer_mode: GCMStep,
    weights: &Option<Vec<u64>>,
    rng: &mut SmallRng,
) -> (r: Result<Vec<u8>, GcmError>)
    requires
        input_fits(constraints@),
    ensures
        match r {
            Ok(text) => clean_before(constraints@, constraints@.len() as int, 0) && exists|
                st: AlnState,
                g: Graph,
                t0: Seq<Seq<Pos>>,
                t: Seq<Seq<Pos>>,
            | #[trigger]
                merge_done(st, g, t0, t, constraints@, glues@, *weights, tracer_mode, text@),
            Err(e) => {
                ||| state_fault(constraints@, e)
                ||| clean_before(constraints@, constraints@.len() as int, 0) && exists|st: AlnState|
                    #[trigger] built_from(st, constraints@) && graph_fault(st, glues@, *weights, e)
                ||| e == GcmError::TooManyColumns && clean_before(
                    constraints@,
                    constraints@.len() as int,
                    0,
                ) && exists|st: AlnState| #[trigger]
                    merge_too_wide(st, constraints@, glues@, *weights)
            },
        },
{
    let state = match state_from_constraints(constraints) {
        Ok(s) => s,
        Err(e) => {
            assert(state_fault(constraints@, e));
            return Err(e);
        },
    };
    assert(state.column_counts@ =~= widths_of(constraints@));
    assert(built_from(state, constraints@));
    let graph = match build_graph(&state, glues, weights) {
        Ok(g) => g,
        Err(e) => {
            assert(graph_fault(state, glues@, *weights, e));
            return Err(e);
        },
    };
    assert(graph_fine(state, glues@, *weights));
    assert(graph_built(graph, state, glues@, *weights));
    let first = first_trace(&graph, &state, tracer_mode);
    let ghost t0 = first@;
    assert(is_first_trace(t0, graph, widths_of(constraints@), tracer_mode));
    let res = iterative_refinement(&state, &graph, first, rng);
    proof {
        lemma_trace_len(res@, state.column_counts@);
        lemma_offset_total(state.column_counts@, state.column_counts@.len() as int);
        assert(state.column_counts@.take(state.column_counts@.len() as int)
            =~= state.column_counts@);
    }
    match write_merged(constraints, &state, &res) {
        Ok(text) => {
            assert(merge_done(
                state,
                graph,
                t0,
                res@,
                constraints@,
                glues@,
                *weights,
                tracer_mode,
                text@,
            ));
            Ok(text)
        },
        Err(e) => {
            assert(merge_too_wide(state, constraints@, glues@, *weights));
            Err(e)
        },
    }
}

/// What refining a stored trace gives: the merged alignment as text, and the score of the
/// trace before and after.
pub struct Optimized {
    pub text: Vec<u8>,
    pub before: u64,
    pub after: u64,
}

/// The trace that a text holds on a graph.
pub open spec fn stored_trace(text: Seq<u8>, g: Graph) -> Seq<Seq<Pos>> {
    columns_of_lines(parse_trace(text, g.size as nat).unwrap(), g.node_pos@)
}

/// The stored graph and the stored trace fit the constraints.
pub open spec fn stored_fine(
    st: AlnState,
    g: Graph,
    constraints: Seq<Vec<Record>>,
    node_count: usize,
    triplets: Seq<(usize, usize, u64)>,
    trace: Seq<u8>,
) -> bool {
    &&& built_from(st, constraints)
    &&& stored_graph(g, widths_of(constraints), node_count, triplets)
    &&& parse_trace(trace, node_count as nat).is_some()
    &&& is_trace(stored_trace(trace, g), widths_of(constraints))
}

/// The outcome is that of refining the stored trace into the trace `t`.
pub open spec fn optimize_done(
    st: AlnState,
    g: Graph,
    t: Seq<Seq<Pos>>,
    constraints: Seq<Vec<Record>>,
    node_count: usize,
    triplets: Seq<(usize, usize, u64)>,
    trace: Seq<u8>,
    text: Seq<u8>,
    before: u64,
    after: u64,
) -> bool {
    &&& stored_fine(st, g, constraints, node_count, triplets, trace)
    &&& before == g.score_of(stored_trace(trace, g))
    &&& refinement(stored_trace(trace, g), t, constraints.len() as int, g)
    &&& is_sorted_trace(t, widths_of(constraints))
    &&& same_columns(stored_trace(trace, g), t)
    &&& after == g.score_of(t)
    &&& after >= before
    &&& text == alignment_text(
        constraints,
        frames_of(t, widths_of(constraints)),
        constraints.len() as int,
    )
}

/// The stored graph and the stored trace fit the constraints, and the clusters of the
/// stored trace, or the columns of the constraints, are with the columns of the constraints
/// more than a frame can count.
pub open spec fn optimize_too_wide(
    st: AlnState,
    g: Graph,
    constraints: Seq<Vec<Record>>,
    node_count: usize,
    triplets: Seq<(usize, usize, u64)>,
    trace: Seq<u8>,
) -> bool {
    &&& stored_fine(st, g, constraints, node_count, triplets, trace)
    &&& (stored_trace(trace, g).len() + total_columns(widths_of(constraints)) > u32::MAX || 2
        * total_columns(widths_of(constraints)) > u32::MAX)
}

/// The stored trace is no list of lines of nodes of the stored graph, which gives
/// `MalformedTrace`, or no trace of the constraints, which gives `InternalInvariant`.
pub open spec fn stored_trace_fault(
    st: AlnState,
    g: Graph,
    constraints: Seq<Vec<Record>>,
    node_count: usize,
    triplets: Seq<(usize, usize, u64)>,
    trace: Seq<u8>,
    e: GcmError,
) -> bool {
    &&& built_from(st, constraints)
    &&& stored_graph(g, widths_of(constraints), node_count, triplets)
    &&& if parse_trace(trace, node_count as nat).is_none() {
        e == GcmError::MalformedTrace
    } else {
        e == GcmError::InternalInvariant && !is_trace(stored_trace(trace, g), widths_of(constraints))
    }
}

/// Refines a stored trace on a stored graph and writes the merged alignment as text. Fails
/// with the fault of the constraints, else with that of the graph, else with that of the
/// trace, else with `TooManyColumns` where the clusters of the stored trace, or the columns
/// of the constraints, are with the columns more than a frame can count; succeeds else.
pub fn oneshot_optimize_trace(
    constraints: &Vec<Vec<Record>>,
    node_count: usize,
    triplets: &Vec<(usize, usize, u64)>,
    trace: &[u8],
    rng: &mut SmallRng,
) -> (r: Result<Optimized, GcmError>)
    requires
        input_fits(constraints@),
    ensures
        match r {
            Ok(o) => exists|st: AlnState, g: Graph, t: Seq<Seq<Pos>>| #[trigger]
                optimize_done(
                    st,
                    g,
                    t,
                    constraints@,
                    node_count,
                    triplets@,
                    trace@,
                    o.text@,
                    o.before,
                    o.after,
                ),
            Err(e) => {
                ||| state_fault(constraints@, e)
                ||| clean_before(constraints@, constraints@.len() as int, 0) && stored_graph_fault(
                    widths_of(constraints@),
                    node_count,
                    triplets@,
                    e,
                )
                ||| exists|st: AlnState, g: Graph| #[trigger]
                    stored_trace_fault(st, g, constraints@, node_count, triplets@, trace@, e)
                ||| e == GcmError::TooManyColumns && exists|st: AlnState, g: Graph| #[trigger]
                    optimize_too_wide(st, g, constraints@, node_count, triplets@, trace@)
            },
        },
{
    let state = match state_from_constraints(constraints) {
        Ok(s) => s,
        Err(e) => {
            assert(state_fault(constraints@, e));
            return Err(e);
        },
    };
    assert(state.column_counts@ =~= widths_of(constraints@));
    assert(built_from(state, constraints@));
    let graph = match Graph::from_triplets(&state.column_counts, node_count, triplets) {
        Ok(g) => g,
        Err(e) => {
            assert(state.column_counts@ == widths_of(constraints@));
            assert(stored_graph_fault(widths_of(constraints@), node_count, triplets@, e));
            return Err(e);
        },
    };
    assert(stored_graph(graph, widths_of(constraints@), node_count, triplets@));
    let parsed = match ClusteringResult::from_plaintext(trace, &graph) {
        Ok(t) => t,
        Err(e) => {
            assert(stored_trace_fault(state, graph, constraints@, node_count, triplets@, trace@, e));
            return Err(e);
        },
    };
    if !parsed.is_trace_of(&state) {
        assert(stored_trace_fault(
            state,
            graph,
            constraints@,
            node_count,
            triplets@,
            trace@,
            GcmError::InternalInvariant,
        ));
        return Err(GcmError::InternalInvariant);
    }
    assert(stored_fine(state, graph, constraints@, node_count, triplets@, trace@));
    let before = parsed.mwt_am_score(&state, &graph);
    let ghost stored = parsed@;
    let res = iterative_refinement(&state, &graph, parsed, rng);
    let after = res.mwt_am_score(&state, &graph);
    proof {
        if no_empty(res@) {
            lemma_trace_len(res@, state.column_counts@);
        }
        lemma_offset_total(state.column_counts@, state.column_counts@.len() as int);
        assert(state.column_counts@.take(state.column_counts@.len() as int)
            =~= state.column_counts@);
        assert(stored == stored_trace(trace@, graph));
    }
    match write_merged(constraints, &state, &res) {
        Ok(text) => {
            let r: Result<Optimized, GcmError> = Ok(Optimized { text, before, after });
            assert(optimize_done(
                state,
                graph,
                res@,
                constraints@,
                node_count,
                triplets@,
                trace@,
                r->Ok_0.text@,
                r->Ok_0.before,
                r->Ok_0.after,
            ));
            r
        },
        Err(e) => {
            assert(optimize_too_wide(
                state,
                graph,
                constraints@,
                node_count,
                triplets@,
                trace@,
            ));
            Err(e)
        },
    }
}

} // verus!
