use gcm_trace::aln::Record;
use gcm_trace::cluster::{reorder, ClusteringResult, Graph};
use gcm_trace::dp::{check_dp_fits, fill_tables};
use gcm_trace::error::GcmError;
use gcm_trace::exact_solver::{can_take, reversed, sw_algorithm, weight_from_graph};
use gcm_trace::frames::build_frames;
use gcm_trace::merge::{
    build_graph, build_subgraph, column_offsets, merge_alignments_from_frames, merge_subgraphs,
    state_from_constraints, StateFromConstraints,
};
use gcm_trace::naive_upgma::{average, disjoint_set_po_exists, triplets_to_sims, union};
use gcm_trace::progressive::{
    publish, random_partition, refine_epoch, sort_clusters, sorted_cluster,
};
use gcm_trace::queue::PairQueue;
use gcm_trace::scorer::{oneshot_score_alignment, trace_from_alignment, ScorerOutput};
use gcm_trace::state::AlnState;
use gcm_trace::utils::{degap, parse_axb, sample_seqs_in_place, SequenceSampler};
use gcm_trace::weave::write_record;
use rand::rngs::SmallRng;
use rand::SeedableRng;

fn row(name: &str, seq: &str) -> Record {
    Record { name: name.to_string(), seq: seq.as_bytes().to_vec() }
}

#[test]
fn state_records_residue_columns() {
    let state = state_from_constraints(&vec![
        vec![row("a", "A-C."), row("b", "--GT")],
        vec![row("c", "TT")],
    ])
    .unwrap();
    assert_eq!(state.names, vec!["a".to_string(), "b".to_string(), "c".to_string()]);
    assert_eq!(state.s[0], vec![(0, 0), (0, 2)]);
    assert_eq!(state.s[1], vec![(0, 2), (0, 3)]);
    assert_eq!(state.s[2], vec![(1, 0), (1, 1)]);
    assert_eq!(state.column_counts, vec![4, 2]);
    assert_eq!(state.ncols(), 2);
    assert_eq!(state.retrieve("b"), 1);
    assert_eq!(state.lookup("c"), Some(2));
    assert_eq!(state.lookup("zz"), None);
}

#[test]
fn names_are_registered_once() {
    let mut state = AlnState::new();
    assert_eq!(state.request_name("x"), 0);
    assert_eq!(state.request_name("y"), 1);
    assert_eq!(state.request_name("x"), 0);
    assert_eq!(state.names.len(), 2);
    assert_eq!(state.retrieve("y"), 1);
}

#[test]
fn duplicate_names_fail() {
    let r = state_from_constraints(&vec![vec![row("a", "AC")], vec![row("a", "AC")]]);
    assert_eq!(r.err(), Some(GcmError::DuplicateName));
}

#[test]
fn ragged_rows_fail() {
    let r = state_from_constraints(&vec![vec![row("a", "AC"), row("b", "ACG")]]);
    assert_eq!(r.err(), Some(GcmError::RaggedAlignment));
    let mut p = StateFromConstraints::new();
    assert_eq!(p.on_record("a", b""), Ok(()));
    assert_eq!(p.on_record("b", b"A"), Err(GcmError::RaggedAlignment));
    assert_eq!(p.on_record("a", b""), Err(GcmError::DuplicateName));
    p.next_aln();
    assert_eq!(p.on_record("c", b"A-"), Ok(()));
    p.next_aln();
    let state = p.take();
    assert_eq!(state.column_counts, vec![0, 2]);
    assert_eq!(state.s, vec![vec![], vec![(1, 0)]]);
}

#[test]
fn unknown_glue_names_fail() {
    let state = state_from_constraints(&vec![vec![row("a", "AC")], vec![row("b", "AC")]]).unwrap();
    let r = build_graph(&state, &vec![vec![row("a", "AC"), row("q", "AC")]], &None);
    assert_eq!(r.err(), Some(GcmError::UnknownSequence));
    let r = build_subgraph(&state, &vec![row("a", "AC"), row("b", "A")]);
    assert_eq!(r.err(), Some(GcmError::RaggedAlignment));
    let r = build_subgraph(&state, &vec![row("a", "ACG"), row("b", "AC-")]);
    assert_eq!(r.err(), Some(GcmError::ResidueMismatch));
    let r = trace_from_alignment(&state, &vec![row("zz", "AC")]);
    assert_eq!(r.err(), Some(GcmError::UnknownSequence));
}

#[test]
fn weights_must_match_the_glues() {
    let state = state_from_constraints(&vec![vec![row("a", "AC")], vec![row("b", "AC")]]).unwrap();
    let glues = vec![vec![row("a", "AC"), row("b", "AC")]];
    let r = build_graph(&state, &glues, &Some(vec![1, 2]));
    assert_eq!(r.err(), Some(GcmError::WeightArityMismatch));
    let g = build_graph(&state, &glues, &Some(vec![3])).unwrap();
    assert_eq!(g.sims.get(0, 2), 3);
    assert_eq!(g.sims.get(1, 3), 3);
    assert_eq!(weight_from_graph(&g, 1, 3), 3);
    assert_eq!(weight_from_graph(&g, 0, 3), 0);
    let r = build_graph(&state, &glues, &Some(vec![u64::MAX]));
    assert_eq!(r.err(), Some(GcmError::WeightOverflow));
}

#[test]
fn glue_columns_give_products_of_counts() {
    let state = state_from_constraints(&vec![
        vec![row("a1", "AC"), row("a2", "AC")],
        vec![row("b1", "AC"), row("b2", "AC"), row("b3", "AC")],
    ])
    .unwrap();
    let glue = vec![
        row("a1", "AC-"),
        row("a2", "AC-"),
        row("b1", "A-C"),
        row("b2", "A-C"),
        row("b3", "AC-"),
    ];
    let sub = build_subgraph(&state, &glue).unwrap();
    assert_eq!(sub.get(0, 2), 6);
    assert_eq!(sub.get(1, 3), 2);
    assert_eq!(sub.get(0, 3), 0);
    assert_eq!(sub.get(1, 2), 0);
    let second = build_subgraph(&state, &vec![row("a1", "AC"), row("b1", "CA")]).unwrap();
    let graph = merge_subgraphs(&state, &vec![sub, second], &Some(vec![2, 5])).unwrap();
    assert_eq!(graph.sims.get(0, 2), 12 + 5);
    assert_eq!(graph.sims.get(1, 3), 4 + 5);
    assert_eq!(graph.labels, vec![0, 1, 2, 3]);
    assert_eq!(graph.node_pos, vec![(0, 0), (0, 1), (1, 0), (1, 1)]);
    assert_eq!(column_offsets(&state.column_counts).unwrap(), vec![0, 2, 4]);
}

#[test]
fn stored_graphs_are_checked() {
    let counts = vec![2usize, 2];
    assert_eq!(
        Graph::from_triplets(&counts, 5, &vec![]).err(),
        Some(GcmError::MalformedGraph)
    );
    assert_eq!(
        Graph::from_triplets(&counts, 4, &vec![(2, 1, 1)]).err(),
        Some(GcmError::MalformedGraph)
    );
    assert_eq!(
        Graph::from_triplets(&counts, 4, &vec![(1, 2, 1), (1, 2, 1)]).err(),
        Some(GcmError::MalformedGraph)
    );
    assert_eq!(
        Graph::from_triplets(&counts, 4, &vec![(1, 4, 1)]).err(),
        Some(GcmError::MalformedGraph)
    );
    assert_eq!(
        Graph::from_triplets(&counts, 4, &vec![(1, 2, 0)]).err(),
        Some(GcmError::MalformedGraph)
    );
    assert_eq!(
        triplets_to_sims(&vec![(0, 1, 0xffff_ffff), (1, 2, 1)]).err(),
        Some(GcmError::WeightOverflow)
    );
    let sims = triplets_to_sims(&vec![(0, 1, 4), (1, 2, 1)]).unwrap();
    assert_eq!(sims.edges.len(), 2);
    assert_eq!(sims.edges[1].w, 1);
    let big = vec![0xffff_ffffusize, 1];
    assert_eq!(
        Graph::from_triplets(&big, 0, &vec![]).err(),
        Some(GcmError::TooManyColumns)
    );
}

#[test]
fn traces_in_text_are_read() {
    let counts = vec![2usize, 2];
    let graph = Graph::from_triplets(&counts, 4, &vec![(0, 2, 1)]).unwrap();
    let t = ClusteringResult::from_plaintext(b"0 2\n1\n3\n", &graph).unwrap();
    assert_eq!(t.clusters, vec![vec![(0, 0), (1, 0)], vec![(0, 1)], vec![(1, 1)]]);
    let t = ClusteringResult::from_plaintext(b"00 2\n1 3", &graph).unwrap();
    assert_eq!(t.clusters, vec![vec![(0, 0), (1, 0)], vec![(0, 1), (1, 1)]]);
    let t = ClusteringResult::from_plaintext(b"", &graph).unwrap();
    assert_eq!(t.clusters.len(), 0);
    for bad in [&b"0 4\n"[..], b"0  2\n", b"0 2 \n", b"\n", b"a\n", b"0,2\n", b" 0\n"] {
        assert_eq!(
            ClusteringResult::from_plaintext(bad, &graph).err(),
            Some(GcmError::MalformedTrace)
        );
    }
}

#[test]
fn validity_checks_tell_traces_apart() {
    let state = state_from_constraints(&vec![vec![row("a", "ACG")], vec![row("b", "ACG")]]).unwrap();
    let good = ClusteringResult::new(vec![vec![(0, 0), (1, 1)], vec![(1, 2), (0, 1)]]);
    assert!(good.is_trace_of(&state));
    assert!(good.check_validity());
    let backwards = ClusteringResult::new(vec![vec![(0, 1), (1, 1)], vec![(0, 0), (1, 0)]]);
    assert!(!backwards.is_trace_of(&state));
    assert!(backwards.check_validity());
    let tangled = ClusteringResult::new(vec![vec![(0, 0), (1, 1)], vec![(0, 1), (1, 0)]]);
    assert!(!tangled.is_trace_of(&state));
    assert!(!tangled.check_validity());
    let twice = ClusteringResult::new(vec![vec![(0, 0), (0, 1)]]);
    assert!(!twice.is_trace_of(&state));
    let beyond = ClusteringResult::new(vec![vec![(0, 3)]]);
    assert!(!beyond.is_trace_of(&state));
    let unknown = ClusteringResult::new(vec![vec![(2, 0)]]);
    assert!(!unknown.is_trace_of(&state));
    assert!(ClusteringResult::all_smaller(&[(0, 1), (1, 5)], &[(0, 2), (2, 0)]));
    assert!(!ClusteringResult::all_smaller(&[(0, 1), (1, 5)], &[(0, 1), (2, 0)]));
    assert!(!ClusteringResult::all_smaller(&[(0, 1)], &[(0, 1)]));
    assert!(!ClusteringResult::all_smaller(&[(0, 2)], &[(0, 1)]));
    let shared = ClusteringResult::new(vec![vec![(0, 1)], vec![(0, 1), (1, 0)]]);
    assert!(!shared.check_validity());
}

#[test]
fn hydrate_puts_missing_labels_in() {
    let counts = vec![3usize, 3];
    let graph =
        Graph::from_triplets(&counts, 6, &vec![(0, 3, 1), (1, 4, 1), (2, 5, 1)]).unwrap();
    let state = state_from_constraints(&vec![vec![row("a", "ACG")], vec![row("b", "ACG")]]).unwrap();
    let mut trace = ClusteringResult::new(vec![vec![(0, 1), (1, 1)]]);
    trace.hydrate(&state, &graph);
    assert_eq!(
        trace.clusters,
        vec![vec![(0, 0)], vec![(1, 0)], vec![(0, 1), (1, 1)], vec![(0, 2)], vec![(1, 2)]]
    );
    assert!(trace.is_trace_of(&state));
}

#[test]
fn exact_tracer_prefers_the_diagonal() {
    let counts = vec![2usize, 2];
    let graph = Graph::from_triplets(&counts, 4, &vec![(0, 3, 5), (1, 2, 5), (0, 2, 1)]).unwrap();
    let state = state_from_constraints(&vec![vec![row("a", "AC")], vec![row("b", "AC")]]).unwrap();
    let t = sw_algorithm(&graph, &state);
    assert_eq!(t.clusters, vec![vec![(0, 0), (1, 1)]]);
    let none = Graph::from_triplets(&counts, 4, &vec![]).unwrap();
    let t = sw_algorithm(&none, &state);
    assert_eq!(t.clusters, vec![vec![(0, 0), (1, 0)], vec![(0, 1), (1, 1)]]);
    assert!(check_dp_fits(10, 10));
    assert!(!check_dp_fits(usize::MAX, 1));
    assert!(can_take((1, 2), (1, 2)));
    assert!(can_take((1, 2), (3, 2)));
    assert!(!can_take((1, 2), (0, 5)));
    assert!(!can_take((1, 2), (1, 1)));
}

#[test]
fn frames_of_a_given_trace() {
    let state = state_from_constraints(&vec![
        vec![row("a", "ACG")],
        vec![row("b", "AC")],
        vec![row("c", "A")],
    ])
    .unwrap();
    let trace = ClusteringResult::new(vec![vec![(0, 1), (1, 0)], vec![], vec![(1, 1), (2, 0)]]);
    let frames = build_frames(&state, &trace);
    assert_eq!(frames, vec![vec![0, 0, 2, 0], vec![1, 1, 1], vec![3, 1]]);
    let text = merge_alignments_from_frames(
        &vec![vec![row("a", "ACG")], vec![row("b", "AC")], vec![row("c", "A")]],
        &frames,
    )
    .unwrap();
    assert_eq!(
        String::from_utf8(text).unwrap(),
        ">a\nAC--G-\n>b\n-A-C--\n>c\n---A--\n"
    );
    let bad = merge_alignments_from_frames(&vec![vec![row("a", "AC")]], &frames);
    assert_eq!(bad.err(), Some(GcmError::RaggedAlignment));
}

#[test]
fn records_are_written_on_lines_of_sixty() {
    let mut out = Vec::new();
    let body: Vec<u8> = (0..125).map(|i| b'A' + (i % 20) as u8).collect();
    write_record(&mut out, b"name", &body);
    let text = String::from_utf8(out).unwrap();
    let lines: Vec<&str> = text.split('\n').collect();
    assert_eq!(lines.len(), 5);
    assert_eq!(lines[0], ">name");
    assert_eq!(lines[1].len(), 60);
    assert_eq!(lines[2].len(), 60);
    assert_eq!(lines[3].len(), 5);
    assert_eq!(lines[4], "");
    let mut empty = Vec::new();
    write_record(&mut empty, b"", b"");
    assert_eq!(empty, b">\n".to_vec());
    let mut exact = Vec::new();
    write_record(&mut exact, b"x", &vec![b'C'; 60]);
    assert_eq!(exact.len(), 3 + 61);
}

#[test]
fn lists_are_joined_sorted_and_once() {
    let mut a = vec![5usize, 1, 5, 3];
    union(&mut a, &[4, 1, 9]);
    assert_eq!(a, vec![1, 3, 4, 5, 9]);
    let mut b: Vec<usize> = vec![];
    union(&mut b, &[]);
    assert_eq!(b, Vec::<usize>::new());
    assert_eq!(reorder(9, 1), (1, 9));
}

#[test]
fn reachability_forbids_merges() {
    let out = vec![vec![1usize], vec![2], vec![], vec![2], vec![]];
    let mut visited = fixedbitset::FixedBitSet::with_capacity(5);
    let none = fixedbitset::FixedBitSet::with_capacity(5);
    assert!(!disjoint_set_po_exists(&mut visited, &out, 0, 2, &none));
    assert!(!disjoint_set_po_exists(&mut visited, &out, 2, 0, &none));
    assert!(!disjoint_set_po_exists(&mut visited, &out, 0, 1, &none));
    assert!(disjoint_set_po_exists(&mut visited, &out, 0, 3, &none));
    assert!(visited.contains(1) && visited.contains(2));
    assert!(!visited.contains(0) && !visited.contains(3) && !visited.contains(4));
    assert!(disjoint_set_po_exists(&mut visited, &out, 4, 0, &none));
    assert!(!disjoint_set_po_exists(&mut visited, &out, 3, 2, &none));
    let mut passed = fixedbitset::FixedBitSet::with_capacity(5);
    passed.insert(2);
    assert!(disjoint_set_po_exists(&mut visited, &out, 2, 4, &passed));
    assert!(!visited.contains(1) && !visited.contains(2));
    assert!(!disjoint_set_po_exists(&mut visited, &out, 2, 0, &passed));
    assert!(!disjoint_set_po_exists(&mut visited, &out, 0, 2, &passed));
}

#[test]
fn mean_linkage_rounds_down() {
    assert_eq!(average(10, 1, 5, 1), 7);
    assert_eq!(average(10, 3, 2, 1), 8);
    assert_eq!(average(0, 5, 0, 7), 0);
    assert_eq!(average(0xffff_ffff, usize::MAX, 0xffff_ffff, usize::MAX), 0xffff_ffff);
}

#[test]
fn queue_gives_the_largest_first() {
    let mut q = PairQueue::new();
    assert_eq!(q.pop(), None);
    q.push((5, 1, 2));
    q.push((7, 0, 1));
    q.push((5, 2, 3));
    q.push((7, 0, 0));
    assert_eq!(q.len(), 4);
    assert_eq!(q.pop(), Some((7, 0, 1)));
    assert_eq!(q.pop(), Some((7, 0, 0)));
    assert_eq!(q.pop(), Some((5, 2, 3)));
    assert_eq!(q.pop(), Some((5, 1, 2)));
    assert_eq!(q.pop(), None);
}

#[test]
fn clusters_are_sorted_by_constraint() {
    assert_eq!(sorted_cluster(&vec![(3, 1), (0, 7), (2, 2)]), vec![(0, 7), (2, 2), (3, 1)]);
    assert_eq!(
        sort_clusters(&vec![vec![(1, 0), (0, 0)], vec![], vec![(2, 5)]]),
        vec![vec![(0, 0), (1, 0)], vec![], vec![(2, 5)]]
    );
    assert_eq!(
        reversed(vec![vec![(0, 0)], vec![(1, 1)], vec![(2, 2)]]),
        vec![vec![(2, 2)], vec![(1, 1)], vec![(0, 0)]]
    );
}

#[test]
fn random_partitions_leave_both_sides_filled() {
    let mut rng = SmallRng::seed_from_u64(11);
    for k in 2..9usize {
        for _ in 0..20 {
            let mut bits = fixedbitset::FixedBitSet::with_capacity(k);
            random_partition(&mut rng, k, &mut bits);
            let ones = bits.count_ones(..);
            assert!(ones >= 1 && ones <= k - 1);
            assert_eq!(bits.len(), k);
        }
    }
}

#[test]
fn publishing_keeps_the_better_trace() {
    let mut best = ClusteringResult { clusters: vec![vec![(0, 0)]], mwt_am: 5 };
    let worse = ClusteringResult::new(vec![]);
    assert_eq!(publish(&mut best, worse, 5, 2), 3);
    assert_eq!(best.clusters, vec![vec![(0, 0)]]);
    let better = ClusteringResult::new(vec![vec![(1, 1)]]);
    assert_eq!(publish(&mut best, better, 6, 3), 0);
    assert_eq!(best.clusters, vec![vec![(1, 1)]]);
    assert_eq!(best.mwt_am, 6);
}

#[test]
fn an_epoch_with_one_constraint_changes_nothing() {
    let state = state_from_constraints(&vec![vec![row("a", "ACG")]]).unwrap();
    let graph = Graph::from_triplets(&vec![3], 3, &vec![(0, 1, 2)]).unwrap();
    let mut t = ClusteringResult::new(vec![vec![(0, 0)], vec![(0, 1)]]);
    let mut rng = SmallRng::seed_from_u64(3);
    refine_epoch(&state, &graph, &mut t, &mut rng, -1);
    assert_eq!(t.clusters, vec![vec![(0, 0)], vec![(0, 1)]]);
}

#[test]
fn alignment_columns_become_clusters() {
    let state = state_from_constraints(&vec![
        vec![row("a", "AC"), row("a2", "-C")],
        vec![row("b", "GT")],
    ])
    .unwrap();
    let product = vec![row("b", "-G-T"), row("a", "A-.C"), row("a2", "---C")];
    let t = trace_from_alignment(&state, &product).unwrap();
    assert_eq!(t.clusters, vec![vec![(0, 0)], vec![(1, 0)], vec![(0, 1), (1, 1)]]);
    let out = oneshot_score_alignment(
        &vec![vec![row("a", "AC"), row("a2", "-C")], vec![row("b", "GT")]],
        4,
        &vec![(1, 3, 9), (0, 2, 4)],
        &product,
    )
    .unwrap();
    assert_eq!(out.num_clusters, 3);
    assert_eq!(out.mwt_am, 9);
    let o = ScorerOutput::new(2, 8);
    assert_eq!((o.num_clusters, o.mwt_am), (2, 8));
}

#[test]
fn sampler_keeps_what_fits() {
    assert_eq!(degap(b"A-C.G--"), b"ACG".to_vec());
    let rows = vec![row("a", "A-C"), row("b", "--G"), row("c", "TTT")];
    let mut rng = SmallRng::seed_from_u64(5);
    let (sampler, text) = sample_seqs_in_place(&rows, 5, &mut rng);
    assert_eq!(sampler.records, vec![b"AC".to_vec(), b"G".to_vec(), b"TTT".to_vec()]);
    assert_eq!(String::from_utf8(text).unwrap(), ">a\nAC\n>b\nG\n>c\nTTT\n");
    let (sampler, _) = sample_seqs_in_place(&rows, 2, &mut rng);
    assert_eq!(sampler.records.len(), 2);
    assert_eq!(sampler.i, 3);
    assert!(sampler.is_full());
    for r in &sampler.records {
        assert!(r == b"AC" || r == b"G" || r == b"TTT");
    }
    let mut s = SequenceSampler::new(Some(1));
    assert!(!s.is_full());
    s.see(&mut rng, b"x", b"A-");
    s.place(0, b"y", b"-C");
    assert_eq!(s.names, vec![b"y".to_vec()]);
    assert_eq!(s.records, vec![b"C".to_vec()]);
    s.place(3, b"z", b"GG");
    assert_eq!(s.records, vec![b"C".to_vec()]);
    assert_eq!(s.i, 3);
}

#[test]
fn tables_hold_the_best_weights() {
    let counts = vec![2usize, 3];
    let graph =
        Graph::from_triplets(&counts, 5, &vec![(0, 2, 4), (1, 4, 6), (0, 3, 7)]).unwrap();
    let state = state_from_constraints(&vec![vec![row("a", "AC")], vec![row("b", "ACG")]]).unwrap();
    let t = sw_algorithm(&graph, &state);
    assert_eq!(t.clusters, vec![vec![(0, 0), (1, 1)], vec![(0, 1), (1, 2)]]);
    assert_eq!(t.mwt_am_score(&state, &graph), 13);
    let _ = fill_tables;
}

#[test]
fn two_numbers_around_an_x() {
    assert_eq!(parse_axb("10x200"), Ok((10, 200)));
    assert_eq!(parse_axb("+3x04x7"), Ok((3, 4)));
    assert_eq!(parse_axb("0x0"), Ok((0, 0)));
    assert_eq!(parse_axb("12"), Err("missing second argument before 'x'".to_string()));
    assert_eq!(parse_axb(""), Err("missing second argument before 'x'".to_string()));
    assert_eq!(parse_axb("x5"), Err("Cannot parse first argument into int".to_string()));
    assert_eq!(parse_axb("-1x5"), Err("Cannot parse first argument into int".to_string()));
    assert_eq!(parse_axb("+x5"), Err("Cannot parse first argument into int".to_string()));
    assert_eq!(parse_axb("1x"), Err("Cannot parse second argument into int".to_string()));
    assert_eq!(parse_axb("1x 2"), Err("Cannot parse second argument into int".to_string()));
    assert_eq!(
        parse_axb("1x99999999999999999999999999"),
        Err("Cannot parse second argument into int".to_string())
    );
    assert_eq!(parse_axb("18446744073709551615x1").is_ok(), usize::MAX as u128 >= 18446744073709551615u128);
}

#[test]
fn rows_are_grouped_by_their_labels() {
    let groups = gcm_trace::slice::group_rows(&vec![1, 0, 1, 2, 0], 4);
    assert_eq!(groups, vec![vec![1, 4], vec![0, 2], vec![3], vec![]]);
    assert_eq!(gcm_trace::slice::group_rows(&vec![], 0), Vec::<Vec<usize>>::new());
}

#[test]
fn a_glue_takes_an_even_share_of_each_subset() {
    assert_eq!(gcm_trace::slice::glue_sample_size(200, &vec![3, 50, 7]), 50);
    assert_eq!(gcm_trace::slice::glue_sample_size(20, &vec![3, 50, 7]), 6);
    assert_eq!(gcm_trace::slice::glue_sample_size(2, &vec![3, 50, 7]), 0);
    assert_eq!(gcm_trace::slice::glue_sample_size(9, &vec![0]), 0);
}

#[test]
fn subsets_are_written_unaligned_on_lines_of_sixty() {
    let long = "A".repeat(61);
    let rows = vec![row("x", "AC-G"), row("y", &long), row("z", "TT")];
    let mut out = b"#".to_vec();
    gcm_trace::slice::write_subset(&mut out, &rows, &vec![2, 1]);
    let expected = format!("#>z\nTT\n>y\n{}\nA\n", "A".repeat(60));
    assert_eq!(String::from_utf8(out).unwrap(), expected);
}

#[test]
fn sampled_rows_come_from_their_subset_once() {
    let mut rng = SmallRng::seed_from_u64(11);
    let group = vec![4usize, 8, 15, 16, 23, 42];
    for amount in 0..9usize {
        let mut picked = gcm_trace::slice::sample_group(&mut rng, &group, amount);
        assert_eq!(picked.len(), amount.min(group.len()));
        assert!(picked.iter().all(|x| group.contains(x)));
        picked.sort();
        picked.dedup();
        assert_eq!(picked.len(), amount.min(group.len()));
    }
}

#[test]
fn a_glue_holds_rows_of_every_subset() {
    let mut rng = SmallRng::seed_from_u64(5);
    let rows = vec![row("a", "AAAA"), row("b", "CCCC"), row("c", "GGGG"), row("d", "TTTT")];
    let groups = vec![vec![0usize, 1], vec![2usize, 3]];
    let text = gcm_trace::slice::write_glue(&mut rng, &rows, &groups, 1);
    let text = String::from_utf8(text).unwrap();
    let lines: Vec<&str> = text.lines().collect();
    assert_eq!(lines.len(), 4);
    assert!(lines[0] == ">a" || lines[0] == ">b");
    assert!(lines[2] == ">c" || lines[2] == ">d");
    assert_eq!(lines[1], if lines[0] == ">a" { "AAAA" } else { "CCCC" });
    assert_eq!(lines[3], if lines[2] == ">c" { "GGGG" } else { "TTTT" });
    let all = gcm_trace::slice::write_glue(&mut rng, &rows, &groups, 5);
    assert_eq!(String::from_utf8(all).unwrap().lines().count(), 8);
}

#[test]
fn every_error_has_its_words() {
    assert_eq!(GcmError::RaggedAlignment.describe(), "rows of one alignment differ in length");
    assert_eq!(GcmError::DuplicateName.describe(), "a sequence name occurs twice");
    assert_eq!(GcmError::UnknownSequence.describe(), "a sequence name is not known");
    assert_eq!(
        GcmError::WeightArityMismatch.describe(),
        "the number of weights differs from the number of glues"
    );
    assert_eq!(GcmError::MalformedTrace.describe(), "the trace names something that is no node");
    assert_eq!(GcmError::WeightOverflow.describe(), "the weights of the graph add up too high");
    assert_eq!(GcmError::MalformedGraph.describe(), "the graph has an edge that cannot be");
    assert_eq!(GcmError::TooManyColumns.describe(), "the constraints have too many columns");
    assert_eq!(GcmError::ResidueMismatch.describe(), "a row has more residues than its sequence");
    assert_eq!(GcmError::InternalInvariant.describe(), "the trace is out of order");
}

#[test]
fn a_first_epoch_sets_every_constraint_aside() {
    let constraints = vec![vec![row("a", "AC")], vec![row("b", "AC")]];
    let state = state_from_constraints(&constraints).unwrap();
    let graph = Graph::from_triplets(&vec![2usize, 2], 4, &vec![(0, 2, 5), (1, 3, 7)]).unwrap();
    let start = vec![vec![(0u32, 0u32)], vec![(1, 0)], vec![(0, 1)], vec![(1, 1)]];
    let mut rng = SmallRng::seed_from_u64(1);
    let mut r = ClusteringResult::new(start.clone());
    refine_epoch(&state, &graph, &mut r, &mut rng, -1);
    assert_eq!(r.mwt_am_score(&state, &graph), 12);
    assert_eq!(r.clusters.len(), 2);
    let mut r = ClusteringResult::new(start.clone());
    refine_epoch(&state, &graph, &mut r, &mut rng, 3);
    assert_eq!(r.mwt_am_score(&state, &graph), 12);
    let mut r = ClusteringResult::new(start.clone());
    refine_epoch(&state, &graph, &mut r, &mut rng, 0);
    assert_eq!(r.mwt_am_score(&state, &graph), 12);
    let mut best = ClusteringResult::new(start);
    gcm_trace::progressive::run_worker(&state, &graph, &mut best, &mut rng);
    assert_eq!(best.mwt_am, 12);
    assert_eq!(best.mwt_am_score(&state, &graph), 12);
    let one = state_from_constraints(&vec![vec![row("a", "AC")]]).unwrap();
    let lone = Graph::from_triplets(&vec![2usize], 2, &vec![]).unwrap();
    let mut r = ClusteringResult::new(vec![vec![(0, 0)], vec![(0, 1)]]);
    refine_epoch(&one, &lone, &mut r, &mut rng, -1);
    assert_eq!(r.clusters, vec![vec![(0, 0)], vec![(0, 1)]]);
}
