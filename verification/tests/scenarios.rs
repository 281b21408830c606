use gcm_trace::aln::Record;
use gcm_trace::cluster::{ClusteringResult, GCMStep, Graph};
use gcm_trace::combined::{first_trace, oneshot_merge_alignments};
use gcm_trace::error::GcmError;
use gcm_trace::exact_solver::sw_algorithm;
use gcm_trace::frames::build_frames;
use gcm_trace::merge::{build_graph, merge_alignments_from_frames, state_from_constraints};
use gcm_trace::naive_upgma::naive_upgma;
use gcm_trace::progressive::iterative_refinement;
use rand::rngs::SmallRng;
use rand::SeedableRng;

fn rec(name: &str, seq: &str) -> Record {
    Record { name: name.to_string(), seq: seq.as_bytes().to_vec() }
}

fn widths(frames: &Vec<Vec<u32>>, counts: &Vec<usize>) -> Vec<u64> {
    let mut out = Vec::new();
    for k in 0..frames.len() {
        let gaps: u64 = frames[k].iter().map(|x| *x as u64).sum();
        out.push(gaps + counts[k] as u64);
    }
    out
}

#[test]
fn two_constraints_perfect_overlap() {
    let constraints = vec![
        vec![rec("A1", "ACGT"), rec("A2", "ACGT")],
        vec![rec("B1", "ACGT"), rec("B2", "ACGT")],
    ];
    let glues = vec![vec![rec("A1", "ACGT"), rec("B1", "ACGT")]];
    let state = state_from_constraints(&constraints).unwrap();
    assert_eq!(state.column_counts, vec![4, 4]);
    let graph = build_graph(&state, &glues, &None).unwrap();
    assert_eq!(graph.size, 8);
    assert_eq!(graph.labels, vec![0, 1, 2, 3, 4, 5, 6, 7]);
    let expected = vec![
        vec![(0, 0), (1, 0)],
        vec![(0, 1), (1, 1)],
        vec![(0, 2), (1, 2)],
        vec![(0, 3), (1, 3)],
    ];
    let exact = sw_algorithm(&graph, &state);
    assert_eq!(exact.clusters, expected);
    let greedy = naive_upgma(&graph, &state);
    assert_eq!(greedy.clusters, expected);
    let frames = build_frames(&state, &exact);
    assert_eq!(frames, vec![vec![0, 0, 0, 0, 0], vec![0, 0, 0, 0, 0]]);
    assert_eq!(widths(&frames, &state.column_counts), vec![4, 4]);
    assert_eq!(exact.mwt_am_score(&state, &graph), 4);
}

#[test]
fn two_constraints_shift_by_one() {
    let constraints = vec![vec![rec("A", "ACGT")], vec![rec("B", "-ACGT")]];
    let glues = vec![vec![rec("A", "ACGT"), rec("B", "ACGT")]];
    let state = state_from_constraints(&constraints).unwrap();
    assert_eq!(state.column_counts, vec![4, 5]);
    assert_eq!(state.s[1], vec![(1, 1), (1, 2), (1, 3), (1, 4)]);
    let graph = build_graph(&state, &glues, &None).unwrap();
    let trace = sw_algorithm(&graph, &state);
    assert_eq!(
        trace.clusters,
        vec![
            vec![(0, 0), (1, 1)],
            vec![(0, 1), (1, 2)],
            vec![(0, 2), (1, 3)],
            vec![(0, 3), (1, 4)],
        ]
    );
    let frames = build_frames(&state, &trace);
    assert_eq!(frames[0], vec![1, 0, 0, 0, 0]);
    assert_eq!(frames[1], vec![0, 0, 0, 0, 0, 0]);
    assert_eq!(widths(&frames, &state.column_counts), vec![5, 5]);
    let text = merge_alignments_from_frames(&constraints, &frames).unwrap();
    assert_eq!(String::from_utf8(text).unwrap(), ">A\n-ACGT-\n>B\n-ACGT-\n");
}

#[test]
fn three_constraints_two_columns() {
    let constraints = vec![vec![rec("A", "AC")], vec![rec("B", "AC")], vec![rec("C", "AC")]];
    let glues = vec![
        vec![rec("A", "AC"), rec("B", "AC")],
        vec![rec("A", "AC"), rec("C", "AC")],
        vec![rec("B", "AC"), rec("C", "AC")],
    ];
    let state = state_from_constraints(&constraints).unwrap();
    let graph = build_graph(&state, &glues, &None).unwrap();
    let trace = first_trace(&graph, &state, GCMStep::Auto);
    assert_eq!(
        trace.clusters,
        vec![vec![(0, 0), (1, 0), (2, 0)], vec![(0, 1), (1, 1), (2, 1)]]
    );
    let frames = build_frames(&state, &trace);
    assert_eq!(widths(&frames, &state.column_counts), vec![2, 2, 2]);
    assert_eq!(trace.mwt_am_score(&state, &graph), 6);
}

#[test]
fn crossing_edges_are_not_both_merged() {
    let counts = vec![2usize, 2, 1];
    let triplets = vec![(0usize, 2usize, 10u64), (0, 3, 7), (1, 2, 6)];
    let graph = Graph::from_triplets(&counts, 5, &triplets).unwrap();
    let constraints = vec![vec![rec("A", "AC")], vec![rec("B", "AC")], vec![rec("C", "A")]];
    let state = state_from_constraints(&constraints).unwrap();
    let trace = naive_upgma(&graph, &state);
    assert!(trace.is_trace_of(&state));
    assert!(trace.check_validity());
    assert_eq!(trace.mwt_am_score(&state, &graph), 10);
    assert!(trace.clusters.contains(&vec![(0, 0), (1, 0)]));
    let mut held: Vec<(u32, u32)> = trace.clusters.iter().flatten().cloned().collect();
    held.sort();
    assert_eq!(held, vec![(0, 0), (0, 1), (1, 0), (1, 1)]);
}

#[test]
fn refinement_does_not_lose_score() {
    let counts = vec![2usize, 2, 2, 2];
    let triplets = vec![
        (0usize, 3usize, 5u64),
        (0, 2, 4),
        (1, 3, 4),
        (2, 4, 3),
        (3, 5, 3),
        (4, 6, 2),
        (5, 7, 2),
        (0, 6, 1),
    ];
    let graph = Graph::from_triplets(&counts, 8, &triplets).unwrap();
    let constraints = vec![
        vec![rec("A", "AC")],
        vec![rec("B", "AC")],
        vec![rec("C", "AC")],
        vec![rec("D", "AC")],
    ];
    let state = state_from_constraints(&constraints).unwrap();
    let start = naive_upgma(&graph, &state);
    assert!(start.is_trace_of(&state));
    let before = start.mwt_am_score(&state, &graph);
    let mut rng = SmallRng::seed_from_u64(7);
    let refined = iterative_refinement(&state, &graph, start, &mut rng);
    let after = refined.mwt_am_score(&state, &graph);
    assert!(after >= before);
    assert_eq!(refined.mwt_am as u64, after);
    assert!(refined.is_trace_of(&state));
    assert!(after >= 13);
}

#[test]
fn frames_are_the_same_when_built_twice() {
    let constraints = vec![vec![rec("A", "ACGT")], vec![rec("B", "-ACGT")]];
    let state = state_from_constraints(&constraints).unwrap();
    let trace = ClusteringResult::new(vec![vec![(0, 1), (1, 3)]]);
    let first = build_frames(&state, &trace);
    let second = build_frames(&state, &trace);
    assert_eq!(first, second);
    assert_eq!(first, vec![vec![0, 3, 0, 0, 1], vec![1, 0, 0, 0, 2, 0]]);
}

#[test]
fn merging_end_to_end_gives_rows_of_one_width() {
    let constraints = vec![
        vec![rec("A1", "ACGT"), rec("A2", "AC-T")],
        vec![rec("B1", "AGT"), rec("B2", "A-T")],
    ];
    let glues = vec![vec![rec("A1", "ACGT"), rec("B1", "A-GT")]];
    let mut rng = SmallRng::seed_from_u64(1);
    let text = oneshot_merge_alignments(&constraints, &glues, GCMStep::Auto, &None, &mut rng)
        .unwrap();
    let text = String::from_utf8(text).unwrap();
    assert_eq!(text, ">A1\nACGT-\n>A2\nAC-T-\n>B1\nA-GT-\n>B2\nA--T-\n");
}

#[test]
fn a_stored_trace_is_refined_and_written() {
    let constraints = vec![vec![rec("a", "AC")], vec![rec("b", "AC")]];
    let triplets = vec![(0usize, 2usize, 5u64), (1, 3, 7)];
    let mut rng = SmallRng::seed_from_u64(3);
    let out = gcm_trace::combined::oneshot_optimize_trace(
        &constraints,
        4,
        &triplets,
        b"0 2\n1\n3\n",
        &mut rng,
    )
    .unwrap();
    assert_eq!(out.before, 5);
    assert_eq!(out.after, 12);
    assert_eq!(String::from_utf8(out.text).unwrap(), ">a\nAC-\n>b\nAC-\n");
}

#[test]
fn a_stored_trace_that_is_out_of_order_is_refused() {
    let constraints = vec![vec![rec("a", "AC")], vec![rec("b", "AC")]];
    let triplets = vec![(0usize, 2usize, 5u64), (1, 3, 7)];
    let mut rng = SmallRng::seed_from_u64(3);
    let crossed = gcm_trace::combined::oneshot_optimize_trace(
        &constraints,
        4,
        &triplets,
        b"0 3\n1 2\n",
        &mut rng,
    );
    assert_eq!(crossed.err(), Some(gcm_trace::error::GcmError::InternalInvariant));
    let twice = gcm_trace::combined::oneshot_optimize_trace(
        &constraints,
        4,
        &triplets,
        b"0 1\n",
        &mut rng,
    );
    assert_eq!(twice.err(), Some(gcm_trace::error::GcmError::InternalInvariant));
    let no_node = gcm_trace::combined::oneshot_optimize_trace(
        &constraints,
        4,
        &triplets,
        b"0 4\n",
        &mut rng,
    );
    assert_eq!(no_node.err(), Some(gcm_trace::error::GcmError::MalformedTrace));
}

#[test]
fn a_stored_graph_must_fit_the_constraints() {
    let constraints = vec![vec![rec("a", "AC")], vec![rec("b", "AC")]];
    let mut rng = SmallRng::seed_from_u64(3);
    let run = |n: usize, t: Vec<(usize, usize, u64)>, rng: &mut SmallRng| {
        gcm_trace::combined::oneshot_optimize_trace(&constraints, n, &t, b"", rng).err()
    };
    assert_eq!(run(5, vec![], &mut rng), Some(GcmError::MalformedGraph));
    assert_eq!(run(4, vec![(2, 0, 1)], &mut rng), Some(GcmError::MalformedGraph));
    assert_eq!(run(4, vec![(0, 2, 0)], &mut rng), Some(GcmError::MalformedGraph));
    assert_eq!(run(4, vec![(0, 2, 1), (0, 2, 1)], &mut rng), Some(GcmError::MalformedGraph));
    assert_eq!(run(4, vec![(0, 4, 1)], &mut rng), Some(GcmError::MalformedGraph));
    assert_eq!(
        run(4, vec![(0, 2, 0xffff_ffff), (1, 3, 1)], &mut rng),
        Some(GcmError::WeightOverflow)
    );
    let twice = vec![vec![rec("a", "AC")], vec![rec("a", "AC")]];
    assert_eq!(
        gcm_trace::combined::oneshot_optimize_trace(&twice, 4, &vec![], b"", &mut rng).err(),
        Some(GcmError::DuplicateName)
    );
}
