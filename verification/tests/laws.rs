use gcm_trace::aln::Record;
use gcm_trace::cluster::{ClusteringResult, GCMStep, Graph};
use gcm_trace::combined::first_trace;
use gcm_trace::frames::build_frames;
use gcm_trace::merge::{build_graph, merge_alignments_from_frames, state_from_constraints};
use gcm_trace::naive_upgma::naive_upgma;
use gcm_trace::progressive::{iterative_refinement, iterative_refinement_step};
use gcm_trace::scorer::trace_from_alignment;
use gcm_trace::sims::Sims;
use gcm_trace::weave::weave_row;
use rand::rngs::SmallRng;
use rand::SeedableRng;

fn row(name: &str, seq: &str) -> Record {
    Record { name: name.to_string(), seq: seq.as_bytes().to_vec() }
}

fn five_constraints() -> Vec<Vec<Record>> {
    vec![
        vec![row("a1", "ACG-TA"), row("a2", "AC-GTA")],
        vec![row("b1", "CGTA"), row("b2", "C-TA")],
        vec![row("c1", "ACGTTA")],
        vec![row("d1", "AGT"), row("d2", "A-T"), row("d3", "AG-")],
        vec![row("e1", "TTACG")],
    ]
}

fn five_glues() -> Vec<Vec<Record>> {
    vec![
        vec![row("a1", "ACGTA"), row("b1", "-CGTA"), row("c1", "ACGTT")],
        vec![row("a2", "ACGTA"), row("d1", "A-GT-"), row("e1", "TTACG")],
        vec![row("b2", "CTA-"), row("c1", "CGTT"), row("d3", "-AG-")],
        vec![row("c1", "ACGTTA"), row("e1", "-TTACG"), row("a1", "ACG-TA")],
    ]
}

#[test]
fn tracer_output_is_ordered() {
    let constraints = five_constraints();
    let state = state_from_constraints(&constraints).unwrap();
    let graph = build_graph(&state, &five_glues(), &None).unwrap();
    let trace = naive_upgma(&graph, &state);
    assert!(trace.is_trace_of(&state));
    for (i, a) in trace.clusters.iter().enumerate() {
        for b in trace.clusters.iter().skip(i + 1) {
            for x in a {
                for y in b {
                    if x.0 == y.0 {
                        assert!(x.1 < y.1);
                    }
                }
            }
        }
    }
}

#[test]
fn clusters_hold_each_constraint_once() {
    let constraints = five_constraints();
    let state = state_from_constraints(&constraints).unwrap();
    let graph = build_graph(&state, &five_glues(), &None).unwrap();
    let trace = naive_upgma(&graph, &state);
    for c in &trace.clusters {
        assert!(!c.is_empty());
        for i in 0..c.len() {
            for j in (i + 1)..c.len() {
                assert!(c[i].0 < c[j].0);
            }
        }
    }
    let mut held: Vec<(u32, u32)> = trace.clusters.iter().flatten().cloned().collect();
    held.sort();
    let labels: Vec<(u32, u32)> = graph.labels.iter().map(|l| graph.node_pos[*l]).collect();
    assert_eq!(held, labels);
}

#[test]
fn refinement_never_lowers_the_score() {
    let constraints = five_constraints();
    let state = state_from_constraints(&constraints).unwrap();
    let graph = build_graph(&state, &five_glues(), &None).unwrap();
    for seed in 0..3u64 {
        let start = first_trace(&graph, &state, GCMStep::Upgma);
        let before = start.mwt_am_score(&state, &graph);
        let mut rng = SmallRng::seed_from_u64(seed);
        let refined = iterative_refinement(&state, &graph, start, &mut rng);
        assert!(refined.mwt_am_score(&state, &graph) >= before);
        assert!(refined.is_trace_of(&state));
    }
}

#[test]
fn one_step_keeps_or_raises_the_score() {
    let constraints = five_constraints();
    let state = state_from_constraints(&constraints).unwrap();
    let graph = build_graph(&state, &five_glues(), &None).unwrap();
    let mut trace = first_trace(&graph, &state, GCMStep::Upgma);
    for k in 0..5usize {
        let before = trace.mwt_am_score(&state, &graph);
        let mut part = fixedbitset::FixedBitSet::with_capacity(5);
        part.insert(k);
        iterative_refinement_step(&state, &graph, &mut trace, &part);
        assert!(trace.mwt_am_score(&state, &graph) >= before);
        assert!(trace.is_trace_of(&state));
    }
}

#[test]
fn frames_give_every_constraint_one_width() {
    let constraints = five_constraints();
    let state = state_from_constraints(&constraints).unwrap();
    let graph = build_graph(&state, &five_glues(), &None).unwrap();
    let trace = naive_upgma(&graph, &state);
    let frames = build_frames(&state, &trace);
    let mut widths = Vec::new();
    for k in 0..frames.len() {
        assert_eq!(frames[k].len(), state.column_counts[k] + 1);
        let gaps: u64 = frames[k].iter().map(|x| *x as u64).sum();
        widths.push(gaps + state.column_counts[k] as u64);
    }
    for w in &widths {
        assert_eq!(*w, widths[0]);
    }
}

#[test]
fn weaving_keeps_the_residues() {
    let rows = ["ACGT", "A-G.", "----", "", "T"];
    for r in rows {
        let frame: Vec<u32> = (0..=r.len() as u32).map(|i| (i * 7) % 4).collect();
        let woven = weave_row(r.as_bytes(), &frame);
        let kept: Vec<u8> = woven.iter().cloned().filter(|b| *b != b'-' && *b != b'.').collect();
        let was: Vec<u8> = r.bytes().filter(|b| *b != b'-' && *b != b'.').collect();
        assert_eq!(kept, was);
        let gaps: usize = frame.iter().map(|x| *x as usize).sum();
        assert_eq!(woven.len(), r.len() + gaps + 1);
    }
    assert_eq!(weave_row(b"AC", &[1, 0, 2]), b"-AC---".to_vec());
}

#[test]
fn merged_alignment_shows_the_trace_again() {
    let constraints = five_constraints();
    let state = state_from_constraints(&constraints).unwrap();
    let graph = build_graph(&state, &five_glues(), &None).unwrap();
    let trace = naive_upgma(&graph, &state);
    let before = trace.mwt_am_score(&state, &graph);
    let frames = build_frames(&state, &trace);
    let text = merge_alignments_from_frames(&constraints, &frames).unwrap();
    let mut product: Vec<Record> = Vec::new();
    let text = String::from_utf8(text).unwrap();
    let mut lines = text.lines();
    while let Some(head) = lines.next() {
        let body = lines.next().unwrap();
        product.push(row(&head[1..], body));
    }
    let shown = trace_from_alignment(&state, &product).unwrap();
    assert!(shown.mwt_am_score(&state, &graph) >= before);
    assert!(shown.is_trace_of(&state));
    let held = |p: &(u32, u32)| trace.clusters.iter().any(|c| c.contains(p));
    let alone_with_another = shown.clusters.iter().any(|c| c.len() > 1 && !c.iter().all(held));
    assert!(!alone_with_another);
    assert_eq!(shown.mwt_am_score(&state, &graph), before);
}

#[test]
fn an_edge_is_stored_in_one_direction() {
    let mut sims = Sims::new();
    sims.add(5, 2, 3).unwrap();
    sims.add(2, 5, 4).unwrap();
    sims.add(1, 2, 1).unwrap();
    assert_eq!(sims.get(2, 5), 7);
    assert_eq!(sims.get(5, 2), 0);
    assert_eq!(sims.get(1, 2), 1);
    assert_eq!(sims.get(2, 1), 0);
    assert_eq!(sims.edges.len(), 2);
    for e in &sims.edges {
        assert!(e.u < e.v);
        assert!(e.w > 0);
    }
    let counts = vec![3usize, 3];
    let graph = Graph::from_triplets(&counts, 6, &vec![(0, 3, 2), (1, 4, 5)]).unwrap();
    assert_eq!(graph.labels, vec![0, 1, 3, 4]);
    assert_eq!(graph.sims.get(3, 0), 0);
    assert_eq!(graph.sims.get(0, 3), 2);
    let t = ClusteringResult::new(vec![vec![(0, 0), (1, 0)], vec![(0, 1), (1, 1)]]);
    let state = state_from_constraints(&vec![vec![row("x", "AAA")], vec![row("y", "CCC")]])
        .unwrap();
    assert_eq!(t.mwt_am_score(&state, &graph), 7);
}

fn matchings(n: u32, m: u32) -> Vec<Vec<Vec<(u32, u32)>>> {
    if n == 0 || m == 0 {
        return vec![vec![]];
    }
    let mut all = matchings(n - 1, m);
    for t in matchings(n, m - 1) {
        if !all.contains(&t) {
            all.push(t);
        }
    }
    for mut t in matchings(n - 1, m - 1) {
        t.push(vec![(0, n - 1), (1, m - 1)]);
        all.push(t);
    }
    all
}

#[test]
fn no_trace_of_two_constraints_beats_the_exact_one() {
    let counts = vec![3usize, 3];
    let triplets = vec![(0, 4, 5), (1, 3, 4), (1, 5, 2), (2, 4, 6), (0, 3, 1), (2, 5, 3)];
    let graph = Graph::from_triplets(&counts, 6, &triplets).unwrap();
    let state =
        state_from_constraints(&vec![vec![row("a", "ACG")], vec![row("b", "ACG")]]).unwrap();
    let best = gcm_trace::exact_solver::sw_algorithm(&graph, &state);
    let top = best.mwt_am_score(&state, &graph);
    assert_eq!(top, 10);
    let all = matchings(3, 3);
    assert_eq!(all.len(), 20);
    for t in all {
        let other = ClusteringResult::new(t);
        assert!(other.is_trace_of(&state));
        assert!(other.mwt_am_score(&state, &graph) <= top);
    }
}

fn chain_leads(t: &Vec<Vec<(u32, u32)>>, from: usize, to: usize) -> bool {
    let mut seen = vec![false; t.len()];
    let mut stack = vec![from];
    while let Some(x) = stack.pop() {
        for y in 0..t.len() {
            let before = t[x].iter().any(|p| t[y].iter().any(|q| p.0 == q.0 && p.1 < q.1));
            if before && !seen[y] {
                if y == to {
                    return true;
                }
                seen[y] = true;
                stack.push(y);
            }
        }
    }
    false
}

#[test]
fn greedy_merging_leaves_nothing_to_merge() {
    let constraints = five_constraints();
    let state = state_from_constraints(&constraints).unwrap();
    let graph = build_graph(&state, &five_glues(), &None).unwrap();
    let trace = naive_upgma(&graph, &state);
    assert!(!graph.sims.edges.is_empty());
    let mut joined = 0;
    for e in &graph.sims.edges {
        let p = graph.node_pos[e.u];
        let q = graph.node_pos[e.v];
        let x = trace.clusters.iter().position(|c| c.contains(&p)).unwrap();
        let y = trace.clusters.iter().position(|c| c.contains(&q)).unwrap();
        if x == y {
            joined += 1;
        } else {
            assert!(chain_leads(&trace.clusters, x, y) || chain_leads(&trace.clusters, y, x));
        }
    }
    assert!(joined > 0);
}

#[test]
fn greedy_merging_keeps_the_heavier_of_two_crossing_edges() {
    let counts = vec![2usize, 2];
    let graph = Graph::from_triplets(&counts, 4, &vec![(0, 3, 2), (1, 2, 1)]).unwrap();
    let state = state_from_constraints(&vec![vec![row("a", "AC")], vec![row("b", "AC")]]).unwrap();
    let trace = naive_upgma(&graph, &state);
    assert_eq!(trace.clusters, vec![vec![(1, 0)], vec![(0, 0), (1, 1)], vec![(0, 1)]]);
    let other = Graph::from_triplets(&counts, 4, &vec![(0, 3, 1), (1, 2, 2)]).unwrap();
    let trace = naive_upgma(&other, &state);
    assert_eq!(trace.clusters, vec![vec![(0, 0)], vec![(0, 1), (1, 0)], vec![(1, 1)]]);
}

#[test]
fn greedy_merging_joins_what_edges_join() {
    let counts = vec![2usize, 2, 2];
    let triplets = vec![(0, 2, 1), (0, 4, 1), (1, 3, 1), (1, 5, 1), (2, 4, 1), (3, 5, 1)];
    let graph = Graph::from_triplets(&counts, 6, &triplets).unwrap();
    let state = state_from_constraints(&vec![
        vec![row("a", "AC")],
        vec![row("b", "AC")],
        vec![row("c", "AC")],
    ])
    .unwrap();
    let trace = naive_upgma(&graph, &state);
    assert_eq!(
        trace.clusters,
        vec![vec![(0, 0), (1, 0), (2, 0)], vec![(0, 1), (1, 1), (2, 1)]]
    );
    for c in &trace.clusters {
        for p in c {
            let joined = c.iter().any(|q| {
                graph.sims.edges.iter().any(|e| {
                    let (x, y) = (graph.node_pos[e.u], graph.node_pos[e.v]);
                    (x == *p && y == *q) || (x == *q && y == *p)
                })
            });
            assert!(joined);
        }
    }
}

#[test]
fn filling_a_trace_holds_every_label_once() {
    let counts = vec![3usize, 3, 2];
    let triplets = vec![(0, 3, 1), (1, 4, 1), (2, 5, 1), (1, 6, 1), (5, 7, 1)];
    let graph = Graph::from_triplets(&counts, 8, &triplets).unwrap();
    let state = state_from_constraints(&vec![
        vec![row("a", "ACG")],
        vec![row("b", "ACG")],
        vec![row("c", "AC")],
    ])
    .unwrap();
    let given = vec![vec![(0u32, 1u32), (1, 1)], vec![(1, 2), (2, 1)]];
    let mut trace = ClusteringResult::new(given.clone());
    trace.hydrate(&state, &graph);
    let places: Vec<usize> = given
        .iter()
        .map(|c| trace.clusters.iter().position(|d| d == c).unwrap())
        .collect();
    assert!(places[0] < places[1]);
    for (y, c) in trace.clusters.iter().enumerate() {
        if !places.contains(&y) {
            assert_eq!(c.len(), 1);
            assert!(!given.iter().any(|g| g.contains(&c[0])));
        }
    }
    for l in &graph.labels {
        let p = graph.node_pos[*l];
        assert_eq!(trace.clusters.iter().filter(|c| c.contains(&p)).count(), 1);
    }
    assert!(trace.is_trace_of(&state));
}
