use vstd::prelude::*;
use ahash::AHashMap;
use crate::maps::{entries_get, entries_insert, entries_new, entries_of};
use crate::sims::{Edge, Sims, NODE_CAP, WEIGHT_CAP, weight_sum, lemma_weight_sum_bounds};
use crate::state::AlnState;
use crate::error::GcmError;
use crate::hydration::{
    by_constraint, clusters_apart, filled_in, labels_rise, lemma_hydrated, lemma_hydrated_holds,
    lemma_hydrated_once, walkable,
};

verus! {

/// A column of a constraint: the constraint's index, then the column's index in it.
pub type Pos = (u32, u32);

/// Which tracer builds the first trace.
#[derive(Copy, Clone, PartialEq, Eq, Structural, Debug, Hash)]
pub enum GCMStep {
    Auto,
    Upgma,
    Pairwise,
}

/// An ordered list of match clusters, with the score last recorded for it.
#[derive(Debug, Clone)]
pub struct ClusteringResult {
    pub clusters: Vec<Vec<(u32, u32)>>,
    pub mwt_am: u32,
}

/// The clusters of a list of vectors, each as a sequence.
pub open spec fn rows_of(v: Seq<Vec<Pos>>) -> Seq<Seq<Pos>> {
    Seq::new(v.len(), |i: int| v[i]@)
}

/// Every column of `a` lies before the column of `b` in the same constraint, where both have one.
pub open spec fn strictly_before(a: Seq<Pos>, b: Seq<Pos>) -> bool {
    forall|i: int, j: int|
        0 <= i < a.len() && 0 <= j < b.len() && a[i].0 == b[j].0 ==> a[i].1 < b[j].1
}

/// Any two clusters can be put in an order that agrees with every constraint they share:
/// the columns of one lie before those of the other.
pub open spec fn pairwise_comparable(t: Seq<Seq<Pos>>) -> bool {
    forall|i: int, j: int|
        0 <= i < j < t.len() ==> strictly_before(t[i], t[j]) || strictly_before(t[j], t[i])
}

/// The list order agrees with the column order of every constraint.
pub open spec fn ordered(t: Seq<Seq<Pos>>) -> bool {
    forall|i: int, j: int| 0 <= i < j < t.len() ==> strictly_before(t[i], t[j])
}

/// No two columns of the cluster belong to one constraint.
pub open spec fn distinct_constraints(c: Seq<Pos>) -> bool {
    forall|i: int, j: int| 0 <= i < j < c.len() ==> c[i].0 != c[j].0
}

/// The columns of the cluster stand by rising constraint index.
pub open spec fn sorted_by_constraint(c: Seq<Pos>) -> bool {
    forall|i: int, j: int| 0 <= i < j < c.len() ==> c[i].0 < c[j].0
}

/// Every column named by the cluster exists in its constraint.
pub open spec fn cluster_in_range(c: Seq<Pos>, counts: Seq<usize>) -> bool {
    forall|i: int| 0 <= i < c.len() ==> c[i].0 < counts.len() && c[i].1 < counts[c[i].0 as int]
}

/// A trace: clusters of existing columns, one per constraint at most, in an order that agrees
/// with every constraint.
pub open spec fn is_trace(t: Seq<Seq<Pos>>, counts: Seq<usize>) -> bool {
    &&& ordered(t)
    &&& forall|i: int| 0 <= i < t.len() ==> distinct_constraints(#[trigger] t[i])
    &&& forall|i: int| 0 <= i < t.len() ==> cluster_in_range(#[trigger] t[i], counts)
}

/// A trace whose clusters each list their columns by rising constraint index.
pub open spec fn is_sorted_trace(t: Seq<Seq<Pos>>, counts: Seq<usize>) -> bool {
    &&& is_trace(t, counts)
    &&& forall|i: int| 0 <= i < t.len() ==> sorted_by_constraint(#[trigger] t[i])
}

impl View for ClusteringResult {
    type V = Seq<Seq<Pos>>;

    open spec fn view(&self) -> Seq<Seq<Pos>> {
        rows_of(self.clusters@)
    }
}

impl ClusteringResult {
    /// A result that holds the given clusters and no score yet.
    pub fn new(sol: Vec<Vec<(u32, u32)>>) -> (r: Self)
        ensures
            r.clusters == sol,
            r.mwt_am == 0,
    {
        ClusteringResult { clusters: sol, mwt_am: 0 }
    }

    /// Whether every column of `lhs` lies before the column of `rhs` in the same constraint,
    /// where both have one.
    pub fn all_smaller(lhs: &[(u32, u32)], rhs: &[(u32, u32)]) -> (ok: bool)
        ensures
            ok == strictly_before(lhs@, rhs@),
    {
        let mut i: usize = 0;
        while i < lhs.len()
            invariant
                i <= lhs.len(),
                forall|a: int, b: int|
                    0 <= a < i && 0 <= b < rhs.len() && lhs@[a].0 == rhs@[b].0 ==> lhs@[a].1
                        < rhs@[b].1,
            decreases lhs.len() - i,
        {
            let mut j: usize = 0;
            while j < rhs.len()
                invariant
                    i < lhs.len(),
                    j <= rhs.len(),
                    forall|b: int|
                        0 <= b < j && lhs@[i as int].0 == rhs@[b].0 ==> lhs@[i as int].1
                            < rhs@[b].1,
                decreases rhs.len() - j,
            {
                if lhs[i].0 == rhs[j].0 && lhs[i].1 >= rhs[j].1 {
                    return false;
                }
                j += 1;
            }
            i += 1;
        }
        true
    }

    /// Whether every two clusters can be ordered: the test that a finished trace must pass.
    pub fn check_validity(&self) -> (ok: bool)
        ensures
            ok == pairwise_comparable(self@),
    {
        let n = self.clusters.len();
        let mut i: usize = 0;
        while i < n
            invariant
                n == self.clusters.len(),
                i <= n,
                forall|a: int, b: int|
                    0 <= a < b < n && a < i ==> strictly_before(self@[a], self@[b])
                        || strictly_before(self@[b], self@[a]),
            decreases n - i,
        {
            let mut j: usize = i + 1;
            while j < n
                invariant
                    n == self.clusters.len(),
                    i < n,
                    i < j <= n,
                    forall|b: int|
                        i < b < j ==> strictly_before(self@[i as int], self@[b])
                            || strictly_before(self@[b], self@[i as int]),
                decreases n - j,
            {
                let fwd = Self::all_smaller(
                    self.clusters[i].as_slice(),
                    self.clusters[j].as_slice(),
                );
                let bwd = Self::all_smaller(
                    self.clusters[j].as_slice(),
                    self.clusters[i].as_slice(),
                );
                assert(self@[i as int] == self.clusters@[i as int]@);
                assert(self@[j as int] == self.clusters@[j as int]@);
                if !fwd && !bwd {
                    return false;
                }
                j += 1;
            }
            i += 1;
        }
        true
    }
}

/// The two indices, smaller first.
pub fn reorder(lhs: usize, rhs: usize) -> (r: (usize, usize))
    ensures
        r.0 <= r.1,
        r == (if lhs > rhs { (rhs, lhs) } else { (lhs, rhs) }),
{
    if lhs > rhs {
        (rhs, lhs)
    } else {
        (lhs, rhs)
    }
}


/// The weighted graph over the columns of all constraints. Nodes are the columns, numbered
/// constraint by constraint; `labels` lists the nodes that have an edge.
pub struct Graph {
    pub size: usize,
    pub labels: Vec<usize>,
    pub sims: Sims,
    pub node_pos: Vec<(u32, u32)>,
}

/// The number of the first column of constraint `k`.
pub open spec fn offset(counts: Seq<usize>, k: int) -> int
    decreases k,
{
    if k <= 0 {
        0
    } else {
        offset(counts, k - 1) + counts[k - 1]
    }
}

/// The number of a column as a node.
pub open spec fn node_of(counts: Seq<usize>, p: Pos) -> int {
    offset(counts, p.0 as int) + p.1
}

/// Whether `id` is an end of one of the edges.
pub open spec fn is_endpoint(edges: Seq<Edge>, id: usize) -> bool {
    exists|i: int| 0 <= i < edges.len() && ((#[trigger] edges[i]).u == id || edges[i].v == id)
}

/// The key under which a column is filed.
pub open spec fn pos_key(p: Pos) -> u64 {
    (p.0 * 0x1_0000_0000 + p.1) as u64
}

/// The index of the last cluster that holds the column, or -1 where none does.
pub open spec fn holder(t: Seq<Seq<Pos>>, p: Pos) -> int
    decreases t.len(),
{
    if t.len() == 0 {
        -1
    } else if t.last().contains(p) {
        t.len() - 1
    } else {
        holder(t.drop_last(), p)
    }
}

/// Whether some cluster of the trace holds the column.
pub open spec fn hosts(t: Seq<Seq<Pos>>, p: Pos) -> bool {
    exists|k: int| 0 <= k < t.len() && (#[trigger] t[k]).contains(p)
}

/// Whether two different columns stand in one cluster.
pub open spec fn together(t: Seq<Seq<Pos>>, p: Pos, q: Pos) -> bool {
    p != q && holder(t, p) >= 0 && holder(t, p) == holder(t, q)
}

/// What the first `n` edges add to the score of a trace: the weight of each edge whose two
/// columns stand in one cluster.
pub open spec fn score_upto(t: Seq<Seq<Pos>>, edges: Seq<Edge>, pos: Seq<Pos>, n: int) -> int
    decreases n,
{
    if n <= 0 {
        0
    } else {
        score_upto(t, edges, pos, n - 1) + (if together(
            t,
            pos[edges[n - 1].u as int],
            pos[edges[n - 1].v as int],
        ) {
            edges[n - 1].w as int
        } else {
            0
        })
    }
}

pub proof fn lemma_score_bound(t: Seq<Seq<Pos>>, edges: Seq<Edge>, pos: Seq<Pos>, n: int)
    ensures
        0 <= score_upto(t, edges, pos, n) <= weight_sum(edges, n),
    decreases n,
{
    if n > 0 {
        lemma_score_bound(t, edges, pos, n - 1);
    } else {
    }
}

impl Graph {
    /// Whether the column is one of those that have an edge.
    pub open spec fn is_label(&self, p: Pos) -> bool {
        exists|i: int|
            0 <= i < self.labels@.len() && self.node_pos@[(#[trigger] self.labels@[i]) as int] == p
    }

    /// The nodes are the columns of the constraints, in their order; every edge joins two of
    /// them; `labels` lists, rising, the nodes that have an edge.
    pub open spec fn wf(&self, counts: Seq<usize>) -> bool {
        &&& self.size == offset(counts, counts.len() as int)
        &&& self.size <= NODE_CAP
        &&& self.node_pos@.len() == self.size
        &&& forall|id: int|
            0 <= id < self.size ==> {
                let p = #[trigger] self.node_pos@[id];
                p.0 < counts.len() && p.1 < counts[p.0 as int] && node_of(counts, p) == id
            }
        &&& self.sims.wf()
        &&& forall|i: int| 0 <= i < self.sims.edges@.len() ==> (#[trigger] self.sims.edges@[i]).v
            < self.size
        &&& forall|i: int, j: int|
            0 <= i < j < self.labels@.len() ==> self.labels@[i] < self.labels@[j]
        &&& forall|i: int| 0 <= i < self.labels@.len() ==> #[trigger] self.labels@[i] < self.size
        &&& forall|id: usize|
            self.labels@.contains(id) <==> is_endpoint(self.sims.edges@, id)
    }

    /// The score of a trace: the weights of the edges inside its clusters, added up.
    pub open spec fn score_of(&self, t: Seq<Seq<Pos>>) -> int {
        score_upto(t, self.sims.edges@, self.node_pos@, self.sims.edges@.len() as int)
    }
}

/// The key under which a column is filed.
pub fn key_of(p: (u32, u32)) -> (k: u64)
    ensures
        k == pos_key(p),
{
    p.0 as u64 * 0x1_0000_0000 + p.1 as u64
}

/// A map from each column of the trace to the last cluster that holds it.
pub fn index_clusters(clusters: &Vec<Vec<(u32, u32)>>) -> (cid: AHashMap<u64, u64>)
    ensures
        forall|p: Pos|
            holder(rows_of(clusters@), p) >= 0 <==> entries_of(cid).contains_key(
                #[trigger] pos_key(p),
            ),
        forall|p: Pos|
            holder(rows_of(clusters@), p) >= 0 ==> entries_of(cid)[#[trigger] pos_key(p)]
                == holder(rows_of(clusters@), p),
{
    let mut cid = entries_new();
    let ghost t = rows_of(clusters@);
    let n = clusters.len();
    let mut i: usize = 0;
    assert(t.take(0) =~= Seq::<Seq<Pos>>::empty());
    while i < n
        invariant
            i <= n,
            n == clusters@.len(),
            t == rows_of(clusters@),
            forall|p: Pos|
                holder(t.take(i as int), p) >= 0 <==> entries_of(cid).contains_key(
                    #[trigger] pos_key(p),
                ),
            forall|p: Pos|
                holder(t.take(i as int), p) >= 0 ==> entries_of(cid)[#[trigger] pos_key(p)]
                    == holder(t.take(i as int), p),
        decreases n - i,
    {
        let tr = &clusters[i];
        let m = tr.len();
        let mut a: usize = 0;
        assert(tr@ == t[i as int]);
        proof {
            let pt = t.take(i as int).push(tr@.take(0));
            assert(pt.drop_last() =~= t.take(i as int));
            assert(tr@.take(0) =~= Seq::<Pos>::empty());
        }
        while a < m
            invariant
                a <= m,
                m == tr@.len(),
                i < n,
                n == clusters@.len(),
                t == rows_of(clusters@),
                tr@ == t[i as int],
                forall|p: Pos|
                    holder(t.take(i as int).push(tr@.take(a as int)), p) >= 0 <==> entries_of(
                        cid,
                    ).contains_key(#[trigger] pos_key(p)),
                forall|p: Pos|
                    holder(t.take(i as int).push(tr@.take(a as int)), p) >= 0 ==> entries_of(
                        cid,
                    )[#[trigger] pos_key(p)] == holder(
                        t.take(i as int).push(tr@.take(a as int)),
                        p,
                    ),
            decreases m - a,
        {
            let e = tr[a];
            let ghost before = cid;
            entries_insert(&mut cid, key_of(e), i as u64);
            proof {
                let pt0 = t.take(i as int).push(tr@.take(a as int));
                let pt1 = t.take(i as int).push(tr@.take(a as int + 1));
                assert(pt0.drop_last() =~= t.take(i as int));
                assert(pt1.drop_last() =~= t.take(i as int));
                assert(tr@.take(a as int + 1) =~= tr@.take(a as int).push(e));
                assert forall|p: Pos|
                    (holder(pt1, p) >= 0 <==> entries_of(cid).contains_key(#[trigger] pos_key(p)))
                    && (holder(pt1, p) >= 0 ==> entries_of(cid)[pos_key(p)] == holder(
                        pt1,
                        p,
                    )) by {
                    if p == e {
                        assert(tr@.take(a as int + 1)[a as int] == e);
                    } else {
                        assert(pos_key(p) != pos_key(e));
                        assert(entries_of(before).contains_key(pos_key(p)) <==> holder(pt0, p)
                            >= 0);
                        let s0 = tr@.take(a as int);
                        let s1 = tr@.take(a as int + 1);
                        if s1.contains(p) {
                            let x = choose|x: int| 0 <= x < s1.len() && s1[x] == p;
                            assert(s0[x] == p);
                        }
                        if s0.contains(p) {
                            let x = choose|x: int| 0 <= x < s0.len() && s0[x] == p;
                            assert(s1[x] == p);
                        }
                    }
                }
            }
            a += 1;
        }
        proof {
            assert(tr@.take(m as int) =~= tr@);
            assert(t.take(i as int).push(tr@) =~= t.take(i as int + 1));
        }
        i += 1;
    }
    assert(t.take(n as int) =~= t);
    cid
}

impl ClusteringResult {
    /// The score of the trace on the graph: the sum of the weights of the edges whose two
    /// columns stand in one cluster.
    pub fn mwt_am_score(&self, _state: &AlnState, graph: &Graph) -> (score: u64)
        requires
            graph.sims.wf(),
            forall|i: int|
                0 <= i < graph.sims.edges@.len() ==> (#[trigger] graph.sims.edges@[i]).v
                    < graph.node_pos@.len(),
        ensures
            score == graph.score_of(self@),
            score <= WEIGHT_CAP,
    {
        let cid = index_clusters(&self.clusters);
        let ghost t = self@;
        let ghost edges = graph.sims.edges@;
        let ghost pos = graph.node_pos@;
        let n = graph.sims.edges.len();
        let mut score: u64 = 0;
        let mut i: usize = 0;
        while i < n
            invariant
                i <= n,
                n == edges.len(),
                t == self@,
                edges == graph.sims.edges@,
                pos == graph.node_pos@,
                graph.sims.wf(),
                forall|i: int| 0 <= i < edges.len() ==> (#[trigger] edges[i]).v < pos.len(),
                score == score_upto(t, edges, pos, i as int),
                forall|p: Pos|
                    holder(t, p) >= 0 <==> entries_of(cid).contains_key(#[trigger] pos_key(p)),
                forall|p: Pos|
                    holder(t, p) >= 0 ==> entries_of(cid)[#[trigger] pos_key(p)] == holder(t, p),
            decreases n - i,
        {
            let e = graph.sims.edges[i];
            assert(e == edges[i as int]);
            assert(e.u < e.v);
            let p1 = graph.node_pos[e.u];
            let p2 = graph.node_pos[e.v];
            proof {
                lemma_score_bound(t, edges, pos, i as int + 1);
                lemma_weight_sum_bounds(edges, i as int, n as int);
                if i + 1 < n {
                    lemma_weight_sum_bounds(edges, i as int + 1, n as int);
                }
            }
            if p1.0 != p2.0 || p1.1 != p2.1 {
                let c1 = entries_get(&cid, key_of(p1));
                let c2 = entries_get(&cid, key_of(p2));
                match (c1, c2) {
                    (Some(i1), Some(i2)) => {
                        if i1 == i2 {
                            score = score + e.w;
                        }
                    },
                    _ => {},
                }
            }
            i += 1;
        }
        proof {
            lemma_score_bound(t, edges, pos, n as int);
        }
        score
    }
}


/// Where the reader of a trace in text form stands: the number it is in, if any, the nodes
/// of the line so far, and the lines before.
pub struct Reading {
    pub number: Option<nat>,
    pub line: Seq<nat>,
    pub lines: Seq<Seq<nat>>,
}

/// The reader after one more byte, or nothing where the byte cannot stand there: a digit
/// goes on with a number, which must stay below `size`; a blank ends a number; a newline
/// ends a number and its line.
pub open spec fn read_byte(r: Reading, b: u8, size: nat) -> Option<Reading> {
    if 48 <= b <= 57 {
        let v = (match r.number {
            Some(n) => n * 10,
            None => 0,
        }) + (b - 48) as nat;
        if v < size {
            Some(Reading { number: Some(v), line: r.line, lines: r.lines })
        } else {
            None
        }
    } else if b == 32 {
        match r.number {
            Some(n) => Some(Reading { number: None, line: r.line.push(n), lines: r.lines }),
            None => None,
        }
    } else if b == 10 {
        match r.number {
            Some(n) => Some(
                Reading { number: None, line: Seq::empty(), lines: r.lines.push(r.line.push(n)) },
            ),
            None => None,
        }
    } else {
        None
    }
}

/// The lines that the reader has at the end of the text: a last line may lack its newline,
/// but no line may end in a blank.
pub open spec fn read_end(r: Reading) -> Option<Seq<Seq<nat>>> {
    match r.number {
        Some(n) => Some(r.lines.push(r.line.push(n))),
        None => if r.line.len() == 0 {
            Some(r.lines)
        } else {
            None
        },
    }
}

/// The lines of node numbers that the text holds from byte `i` on, for a reader that stands
/// as `r`; nothing where the text is malformed.
pub open spec fn read_from(text: Seq<u8>, i: int, r: Reading, size: nat) -> Option<Seq<Seq<nat>>>
    decreases text.len() - i,
{
    if i >= text.len() {
        read_end(r)
    } else {
        match read_byte(r, text[i], size) {
            Some(next) => read_from(text, i + 1, next, size),
            None => None,
        }
    }
}

/// The trace that a text holds: one cluster per line, each a list of node numbers below
/// `size` in decimal digits, with one blank between two numbers.
pub open spec fn parse_trace(text: Seq<u8>, size: nat) -> Option<Seq<Seq<nat>>> {
    read_from(
        text,
        0,
        Reading { number: None, line: Seq::empty(), lines: Seq::empty() },
        size,
    )
}

/// The columns of the nodes of a line.
pub open spec fn columns_of_line(line: Seq<nat>, pos: Seq<Pos>) -> Seq<Pos> {
    Seq::new(line.len(), |a: int| pos[line[a] as int])
}

/// The columns of the nodes of each line.
pub open spec fn columns_of_lines(lines: Seq<Seq<nat>>, pos: Seq<Pos>) -> Seq<Seq<Pos>> {
    Seq::new(lines.len(), |x: int| columns_of_line(lines[x], pos))
}

impl ClusteringResult {
    /// The trace that a text holds, with each node as the column that the graph gives it.
    /// Fails with `MalformedTrace` where the text is not a list of lines of node numbers.
    pub fn from_plaintext(text: &[u8], graph: &Graph) -> (r: Result<Self, GcmError>)
        requires
            graph.node_pos@.len() == graph.size,
        ensures
            match r {
                Ok(t) => parse_trace(text@, graph.size as nat).is_some() && t@ == columns_of_lines(
                    parse_trace(text@, graph.size as nat).unwrap(),
                    graph.node_pos@,
                ) && t.mwt_am == 0,
                Err(e) => e == GcmError::MalformedTrace && parse_trace(
                    text@,
                    graph.size as nat,
                ).is_none(),
            },
    {
        let size = graph.size;
        let ghost pos = graph.node_pos@;
        let mut clusters: Vec<Vec<(u32, u32)>> = Vec::new();
        let mut cluster: Vec<(u32, u32)> = Vec::new();
        let mut number: Option<usize> = None;
        let ghost mut rd = Reading { number: None, line: Seq::empty(), lines: Seq::empty() };
        let mut i: usize = 0;
        while i < text.len()
            invariant
                i <= text@.len(),
                size == graph.size,
                pos == graph.node_pos@,
                pos.len() == size,
                read_from(text@, i as int, rd, size as nat) == parse_trace(text@, size as nat),
                match number {
                    Some(n) => rd.number == Some(n as nat) && n < size,
                    None => rd.number.is_none(),
                },
                cluster@ == columns_of_line(rd.line, pos),
                rows_of(clusters@) == columns_of_lines(rd.lines, pos),
            decreases text.len() - i,
        {
            let b = text[i];
            let ghost before = rd;
            if b >= 48 && b <= 57 {
                let d = (b - 48) as usize;
                let v: usize = match number {
                    Some(n) => {
                        if n > (usize::MAX - d) / 10 {
                            assert(n * 10 + d >= size) by (nonlinear_arith)
                                requires
                                    n > (usize::MAX - d) / 10,
                                    size <= usize::MAX,
                                    d <= 9,
                            ;
                            return Err(GcmError::MalformedTrace);
                        }
                        assert(n * 10 + d <= usize::MAX) by (nonlinear_arith)
                            requires
                                n <= (usize::MAX - d) / 10,
                        ;
                        n * 10 + d
                    },
                    None => d,
                };
                if v >= size {
                    return Err(GcmError::MalformedTrace);
                }
                number = Some(v);
                proof {
                    rd = Reading { number: Some(v as nat), line: before.line, lines: before.lines };
                }
            } else if b == 32 {
                match number {
                    Some(n) => {
                        cluster.push(graph.node_pos[n]);
                        number = None;
                        proof {
                            rd = Reading {
                                number: None,
                                line: before.line.push(n as nat),
                                lines: before.lines,
                            };
                            assert(cluster@ =~= columns_of_line(rd.line, pos));
                        }
                    },
                    None => {
                        return Err(GcmError::MalformedTrace);
                    },
                }
            } else if b == 10 {
                match number {
                    Some(n) => {
                        cluster.push(graph.node_pos[n]);
                        number = None;
                        let mut done: Vec<(u32, u32)> = Vec::new();
                        core::mem::swap(&mut cluster, &mut done);
                        let ghost rows0 = rows_of(clusters@);
                        clusters.push(done);
                        proof {
                            rd = Reading {
                                number: None,
                                line: Seq::empty(),
                                lines: before.lines.push(before.line.push(n as nat)),
                            };
                            assert(done@ =~= columns_of_line(before.line.push(n as nat), pos));
                            assert(rows_of(clusters@) =~= rows0.push(done@));
                            assert(rows_of(clusters@) =~= columns_of_lines(rd.lines, pos));
                            assert(cluster@ =~= columns_of_line(rd.line, pos));
                        }
                    },
                    None => {
                        return Err(GcmError::MalformedTrace);
                    },
                }
            } else {
                return Err(GcmError::MalformedTrace);
            }
            assert(read_byte(before, b, size as nat) == Some(rd));
            i += 1;
        }
        match number {
            Some(n) => {
                cluster.push(graph.node_pos[n]);
                let ghost rows0 = rows_of(clusters@);
                let ghost last = cluster@;
                clusters.push(cluster);
                proof {
                    assert(last =~= columns_of_line(rd.line.push(n as nat), pos));
                    rd = Reading {
                        number: None,
                        line: Seq::empty(),
                        lines: rd.lines.push(rd.line.push(n as nat)),
                    };
                    assert(rows_of(clusters@) =~= rows0.push(last));
                    assert(rows_of(clusters@) =~= columns_of_lines(rd.lines, pos));
                }
            },
            None => {
                if cluster.len() > 0 {
                    return Err(GcmError::MalformedTrace);
                }
            },
        }
        let out = Self::new(clusters);
        proof {
            let lines = parse_trace(text@, size as nat).unwrap();
            assert(lines == rd.lines);
        }
        Ok(out)
    }
}


/// The trace read so far: the clusters before cluster `x`, and the first `a` columns of
/// cluster `x`.
pub open spec fn read_part(t: Seq<Seq<Pos>>, x: int, a: int) -> Seq<Seq<Pos>> {
    t.take(x).push(t[x].take(a))
}

/// Whether the cluster holds the column that the mark of constraint `c` stands for.
pub open spec fn holds_mark(cluster: Seq<Pos>, c: int, reach: u64) -> bool {
    exists|b: int| 0 <= b < cluster.len() && (#[trigger] cluster[b]).0 == c && cluster[b].1 + 1 == reach
}

/// What the marks say of the part read: for each constraint, one more than the last column
/// of it that was read, and one more than the cluster that held it; none where no column of
/// the constraint was read.
pub open spec fn marks_fit(part: Seq<Seq<Pos>>, reach: Seq<u64>, stamp: Seq<usize>, k: int) -> bool {
    &&& reach.len() == k && stamp.len() == k
    &&& forall|y: int, b: int|
        0 <= y < part.len() && 0 <= b < part[y].len() ==> {
            let e = #[trigger] part[y][b];
            e.0 < k && e.1 < reach[e.0 as int] && y < stamp[e.0 as int]
        }
    &&& forall|c: int|
        0 <= c < k && #[trigger] reach[c] > 0 ==> 1 <= stamp[c] <= part.len() && holds_mark(
            part[stamp[c] - 1],
            c,
            reach[c],
        )
    &&& forall|c: int| 0 <= c < k && #[trigger] reach[c] == 0 ==> stamp[c] == 0
}

impl ClusteringResult {
    /// Whether the clusters are a trace of the constraints of the state: every column
    /// exists, no cluster holds two columns of one constraint, and the order of the clusters
    /// agrees with every constraint.
    pub fn is_trace_of(&self, state: &AlnState) -> (ok: bool)
        ensures
            ok == is_trace(self@, state.column_counts@),
    {
        let ghost t = self@;
        let ghost counts = state.column_counts@;
        let k = state.column_counts.len();
        let mut reach: Vec<u64> = Vec::new();
        let mut stamp: Vec<usize> = Vec::new();
        let mut c: usize = 0;
        while c < k
            invariant
                c <= k,
                reach@.len() == c,
                stamp@.len() == c,
                forall|j: int| 0 <= j < c ==> reach@[j] == 0 && stamp@[j] == 0,
            decreases k - c,
        {
            reach.push(0);
            stamp.push(0);
            c += 1;
        }
        let n = self.clusters.len();
        let mut x: usize = 0;
        assert(t.take(0) =~= Seq::<Seq<Pos>>::empty());
        while x < n
            invariant
                x <= n,
                n == t.len(),
                t == self@,
                counts == state.column_counts@,
                k == counts.len(),
                is_trace(t.take(x as int), counts),
                marks_fit(t.take(x as int), reach@, stamp@, k as int),
            decreases n - x,
        {
            let cluster = &self.clusters[x];
            assert(cluster@ == t[x as int]);
            let m = cluster.len();
            let mut a: usize = 0;
            proof {
                lemma_read_part_start(t, counts, x as int, reach@, stamp@, k as int);
            }
            while a < m
                invariant
                    a <= m,
                    x < n,
                    n == t.len(),
                    t == self@,
                    cluster@ == t[x as int],
                    m == cluster@.len(),
                    counts == state.column_counts@,
                    k == counts.len(),
                    is_trace(read_part(t, x as int, a as int), counts),
                    marks_fit(read_part(t, x as int, a as int), reach@, stamp@, k as int),
                decreases m - a,
            {
                let e = cluster[a];
                if e.0 as usize >= k {
                    proof {
                        lemma_not_trace_range(t, counts, x as int, a as int);
                    }
                    return false;
                }
                if e.1 as usize >= state.column_counts[e.0 as usize] {
                    proof {
                        lemma_not_trace_range(t, counts, x as int, a as int);
                    }
                    return false;
                }
                if stamp[e.0 as usize] == x + 1 || e.1 as u64 + 1 <= reach[e.0 as usize] {
                    proof {
                        lemma_not_trace_order(
                            t,
                            counts,
                            x as int,
                            a as int,
                            reach@,
                            stamp@,
                            k as int,
                        );
                    }
                    return false;
                }
                let ghost r0 = reach@;
                let ghost s0 = stamp@;
                reach[e.0 as usize] = e.1 as u64 + 1;
                stamp[e.0 as usize] = x + 1;
                proof {
                    lemma_read_part_step(t, counts, x as int, a as int, r0, s0, k as int);
                }
                a += 1;
            }
            proof {
                assert(t[x as int].take(m as int) =~= t[x as int]);
                assert(read_part(t, x as int, m as int) =~= t.take(x as int + 1));
            }
            x += 1;
        }
        assert(t.take(n as int) =~= t);
        true
    }
}

/// Starting to read a cluster changes nothing of what was read.
proof fn lemma_read_part_start(
    t: Seq<Seq<Pos>>,
    counts: Seq<usize>,
    x: int,
    reach: Seq<u64>,
    stamp: Seq<usize>,
    k: int,
)
    requires
        0 <= x < t.len(),
        is_trace(t.take(x), counts),
        marks_fit(t.take(x), reach, stamp, k),
    ensures
        is_trace(read_part(t, x, 0), counts),
        marks_fit(read_part(t, x, 0), reach, stamp, k),
{
    let p0 = t.take(x);
    let p1 = read_part(t, x, 0);
    assert(p1[x].len() == 0);
    assert forall|i: int, j: int| 0 <= i < j < p1.len() implies strictly_before(p1[i], p1[j]) by {
        if j < x {
            assert(strictly_before(p0[i], p0[j]));
        }
    }
    assert forall|i: int| 0 <= i < p1.len() implies distinct_constraints(#[trigger] p1[i])
        && cluster_in_range(p1[i], counts) by {
        if i < x {
            assert(p1[i] == p0[i]);
        }
    }
    assert forall|y: int, b: int| 0 <= y < p1.len() && 0 <= b < p1[y].len() implies {
        let e = #[trigger] p1[y][b];
        e.0 < k && e.1 < reach[e.0 as int] && y < stamp[e.0 as int]
    } by {
        assert(p1[y][b] == p0[y][b]);
    }
    assert forall|c: int| 0 <= c < k && #[trigger] reach[c] > 0 implies 1 <= stamp[c] <= p1.len()
        && holds_mark(p1[stamp[c] - 1], c, reach[c]) by {
        assert(p1[stamp[c] - 1] == p0[stamp[c] - 1]);
    }
}

/// A column that no constraint has is no column of a trace.
proof fn lemma_not_trace_range(t: Seq<Seq<Pos>>, counts: Seq<usize>, x: int, a: int)
    requires
        0 <= x < t.len(),
        0 <= a < t[x].len(),
        !(t[x][a].0 < counts.len() && t[x][a].1 < counts[t[x][a].0 as int]),
    ensures
        !is_trace(t, counts),
{
    if is_trace(t, counts) {
        assert(cluster_in_range(t[x], counts));
    }
}

/// A column whose constraint has a column in the same cluster already, or one further on
/// in a cluster before, is no column of a trace.
proof fn lemma_not_trace_order(
    t: Seq<Seq<Pos>>,
    counts: Seq<usize>,
    x: int,
    a: int,
    reach: Seq<u64>,
    stamp: Seq<usize>,
    k: int,
)
    requires
        0 <= x < t.len(),
        0 <= a < t[x].len(),
        marks_fit(read_part(t, x, a), reach, stamp, k),
        t[x][a].0 < k,
        stamp[t[x][a].0 as int] == x + 1 || t[x][a].1 + 1 <= reach[t[x][a].0 as int],
    ensures
        !is_trace(t, counts),
{
    let e = t[x][a];
    let part = read_part(t, x, a);
    let c = e.0 as int;
    assert(reach[c] > 0);
    let y = stamp[c] - 1;
    assert(holds_mark(part[y], c, reach[c]));
    let b = choose|b: int|
        0 <= b < part[y].len() && (#[trigger] part[y][b]).0 == c && part[y][b].1 + 1 == reach[c];
    if is_trace(t, counts) {
        if y < x {
            assert(part[y] == t[y]);
            assert(strictly_before(t[y], t[x]));
            assert(t[y][b].0 == t[x][a].0);
        } else {
            assert(part[y] == t[x].take(a));
            assert(t[x][b] == part[y][b]);
            assert(distinct_constraints(t[x]));
            assert(t[x][b].0 == t[x][a].0);
        }
    }
}

/// Reading a column that lies past the columns of its constraint read before leaves a
/// trace, with the marks moved on.
proof fn lemma_read_part_step(
    t: Seq<Seq<Pos>>,
    counts: Seq<usize>,
    x: int,
    a: int,
    r0: Seq<u64>,
    s0: Seq<usize>,
    k: int,
)
    requires
        0 <= x < t.len(),
        0 <= a < t[x].len(),
        k == counts.len(),
        x + 1 <= usize::MAX,
        is_trace(read_part(t, x, a), counts),
        marks_fit(read_part(t, x, a), r0, s0, k),
        t[x][a].0 < k,
        t[x][a].1 < counts[t[x][a].0 as int],
        s0[t[x][a].0 as int] != x + 1,
        t[x][a].1 + 1 > r0[t[x][a].0 as int],
    ensures
        is_trace(read_part(t, x, a + 1), counts),
        marks_fit(
            read_part(t, x, a + 1),
            r0.update(t[x][a].0 as int, (t[x][a].1 + 1) as u64),
            s0.update(t[x][a].0 as int, (x + 1) as usize),
            k,
        ),
{
    let e = t[x][a];
    let c = e.0 as int;
    let part = read_part(t, x, a);
    let reach = r0.update(c, (e.1 + 1) as u64);
    let stamp = s0.update(c, (x + 1) as usize);
    let p1 = read_part(t, x, a + 1);
    assert(p1[x] =~= part[x].push(e));
    assert forall|y: int| 0 <= y < x implies p1[y] == part[y] by {}
    // what was read of this constraint lies in clusters before, and before the new column
    assert forall|y: int, b: int|
        0 <= y < part.len() && 0 <= b < part[y].len() && (#[trigger] part[y][b]).0
            == e.0 implies part[y][b].1 < e.1 && y < x by {
        assert(part[y][b].1 < r0[c] && y < s0[c]);
        assert(r0[c] > 0);
        assert(s0[c] <= part.len());
    }
    assert forall|i: int, j: int| 0 <= i < j < p1.len() implies strictly_before(p1[i], p1[j]) by {
        assert(strictly_before(part[i], part[j]));
        if j == x {
            assert forall|u: int, v: int|
                0 <= u < p1[i].len() && 0 <= v < p1[j].len() && p1[i][u].0 == p1[j][v].0 implies p1[i][u].1
                < p1[j][v].1 by {
                if v < a {
                    assert(part[j][v] == p1[j][v]);
                } else {
                    assert(part[i][u].0 == e.0);
                }
            }
        }
    }
    assert forall|i: int| 0 <= i < p1.len() implies distinct_constraints(#[trigger] p1[i])
        && cluster_in_range(p1[i], counts) by {
        assert(distinct_constraints(part[i]) && cluster_in_range(part[i], counts));
        if i == x {
            assert forall|u: int, v: int| 0 <= u < v < p1[i].len() implies p1[i][u].0
                != p1[i][v].0 by {
                if v < a {
                    assert(part[i][u].0 != part[i][v].0);
                } else {
                    if p1[i][u].0 == e.0 {
                        assert(part[x][u].0 == e.0);
                    }
                }
            }
        }
    }
    assert forall|y: int, b: int| 0 <= y < p1.len() && 0 <= b < p1[y].len() implies {
        let f = #[trigger] p1[y][b];
        f.0 < k && f.1 < reach[f.0 as int] && y < stamp[f.0 as int]
    } by {
        if y == x && b == a {
        } else {
            assert(p1[y][b] == part[y][b]);
            let f = part[y][b];
            assert(f.0 < k && f.1 < r0[f.0 as int] && y < s0[f.0 as int]);
        }
    }
    assert forall|cc: int| 0 <= cc < k && #[trigger] reach[cc] > 0 implies 1 <= stamp[cc]
        <= p1.len() && holds_mark(p1[stamp[cc] - 1], cc, reach[cc]) by {
        if cc == c {
            assert(p1[x][a].0 == cc && p1[x][a].1 + 1 == reach[cc]);
        } else {
            assert(r0[cc] > 0);
            let y = s0[cc] - 1;
            assert(holds_mark(part[y], cc, r0[cc]));
            let b = choose|b: int|
                0 <= b < part[y].len() && (#[trigger] part[y][b]).0 == cc && part[y][b].1 + 1
                    == r0[cc];
            assert(p1[y][b] == part[y][b]);
        }
    }
    assert forall|cc: int| 0 <= cc < k && #[trigger] reach[cc] == 0 implies stamp[cc] == 0 by {
        if cc != c {
            assert(r0[cc] == 0);
        }
    }
}


/// The number of labels among the first `n` that lie in constraints below `k`.
pub open spec fn labels_below(l: Seq<Pos>, k: int, n: int) -> int
    decreases n,
{
    if n <= 0 {
        0
    } else {
        labels_below(l, k, n - 1) + (if l[n - 1].0 < k {
            1int
        } else {
            0int
        })
    }
}

/// Where the walk through the labels of the constraints stands, and the trace built so far:
/// for each constraint the place of its next label, and the clusters.
pub struct Hydration {
    pub next: Seq<int>,
    pub out: Seq<Seq<Pos>>,
}

/// The labels of constraint `k` from place `at` up to column `col` become clusters of their
/// own, but for the label of column `col` itself, which is passed over.
pub open spec fn catch_up(l: Seq<Pos>, k: int, col: int, at: int, out: Seq<Seq<Pos>>) -> (int, Seq<
    Seq<Pos>,
>)
    decreases l.len() - at,
{
    if 0 <= at < l.len() && l[at].0 == k && l[at].1 <= col {
        catch_up(l, k, col, at + 1, if l[at].1 < col {
            out.push(seq![l[at]])
        } else {
            out
        })
    } else {
        (at, out)
    }
}

/// The labels that lie before a column of a cluster, in its constraint, become clusters.
pub open spec fn hydrate_column(h: Hydration, l: Seq<Pos>, e: Pos) -> Hydration {
    let r = catch_up(l, e.0 as int, e.1 as int, h.next[e.0 as int], h.out);
    Hydration { next: h.next.update(e.0 as int, r.0), out: r.1 }
}

/// The labels that lie before the first `a` columns of a cluster become clusters.
pub open spec fn hydrate_columns(h: Hydration, l: Seq<Pos>, cl: Seq<Pos>, a: int) -> Hydration
    decreases a,
{
    if a <= 0 {
        h
    } else {
        hydrate_column(hydrate_columns(h, l, cl, a - 1), l, cl[a - 1])
    }
}

/// The first `n` clusters of a trace, each behind the labels that lie before its columns.
pub open spec fn hydrate_clusters(l: Seq<Pos>, t: Seq<Seq<Pos>>, k: int, n: int) -> Hydration
    decreases n,
{
    if n <= 0 {
        Hydration { next: Seq::new(k as nat, |c: int| labels_below(l, c, l.len() as int)), out: Seq::empty() }
    } else {
        let h = hydrate_columns(
            hydrate_clusters(l, t, k, n - 1),
            l,
            t[n - 1],
            t[n - 1].len() as int,
        );
        Hydration { next: h.next, out: h.out.push(t[n - 1]) }
    }
}

/// The labels that are left of the first `c` constraints become clusters.
pub open spec fn hydrate_rest(h: Hydration, l: Seq<Pos>, c: int) -> Hydration
    decreases c,
{
    if c <= 0 {
        h
    } else {
        let g = hydrate_rest(h, l, c - 1);
        let r = catch_up(l, c - 1, 0x1_0000_0000, g.next[c - 1], g.out);
        Hydration { next: g.next.update(c - 1, r.0), out: r.1 }
    }
}

/// The trace with the labels that it does not hold put in as clusters of their own.
pub open spec fn hydrated(l: Seq<Pos>, t: Seq<Seq<Pos>>, k: int) -> Seq<Seq<Pos>> {
    hydrate_rest(hydrate_clusters(l, t, k, t.len() as int), l, k).out
}

/// Every column of the trace lies in one of `k` constraints.
pub open spec fn constraints_known(t: Seq<Seq<Pos>>, k: int) -> bool {
    forall|x: int, a: int| 0 <= x < t.len() && 0 <= a < t[x].len() ==> (#[trigger] t[x][a]).0 < k
}

/// The columns of the labels of a graph.
pub open spec fn label_columns(graph: Graph) -> Seq<Pos> {
    Seq::new(graph.labels@.len(), |i: int| graph.node_pos@[graph.labels@[i] as int])
}

/// Makes the labels of constraint `k` from place `at` up to column `col` clusters.
fn catch_up_exec(l: &Vec<(u32, u32)>, k: u32, col: u64, at: usize, out: &mut Vec<Vec<(u32, u32)>>) -> (r:
    usize)
    requires
        at <= l@.len(),
    ensures
        r <= l@.len(),
        (r as int, rows_of(final(out)@)) == catch_up(
            l@,
            k as int,
            col as int,
            at as int,
            rows_of(old(out)@),
        ),
{
    let mut i: usize = at;
    while i < l.len() && l[i].0 == k && l[i].1 as u64 <= col
        invariant
            at <= i <= l@.len(),
            catch_up(l@, k as int, col as int, i as int, rows_of(out@)) == catch_up(
                l@,
                k as int,
                col as int,
                at as int,
                rows_of(old(out)@),
            ),
        decreases l.len() - i,
    {
        if (l[i].1 as u64) < col {
            let mut single: Vec<(u32, u32)> = Vec::new();
            single.push(l[i]);
            let ghost o0 = rows_of(out@);
            assert(single@ =~= seq![l@[i as int]]);
            out.push(single);
            assert(rows_of(out@) =~= o0.push(seq![l@[i as int]]));
        }
        i += 1;
    }
    i
}

impl ClusteringResult {
    /// Puts the labels that the trace does not hold into it as clusters of their own: each
    /// stands before the first cluster that holds a later column of its constraint, or at the
    /// end where there is none. The clusters of the trace stay, in their order; what comes
    /// between them are labels, each alone; where the labels stand by constraint, every
    /// label of a known constraint is held; and where they stand in the order of their nodes
    /// and the trace is in order, no column is held twice, so that each label is held once
    /// and the labels that stand alone are those that the trace did not hold.
    pub fn hydrate(&mut self, state: &AlnState, graph: &Graph)
        requires
            constraints_known(old(self)@, state.column_counts@.len() as int),
            forall|i: int| 0 <= i < graph.labels@.len() ==> #[trigger] graph.labels@[i]
                < graph.node_pos@.len(),
            state.column_counts@.len() <= u32::MAX,
        ensures
            exists|idx: Seq<int>| #[trigger]
                filled_in(old(self)@, final(self)@, label_columns(*graph), idx),
            by_constraint(label_columns(*graph)) ==> forall|i: int|
                0 <= i < label_columns(*graph).len() && (#[trigger] label_columns(*graph)[i]).0
                    < state.column_counts@.len() ==> hosts(final(self)@, label_columns(*graph)[i]),
            labels_rise(label_columns(*graph)) && walkable(
                old(self)@,
                state.column_counts@.len() as int,
            ) ==> clusters_apart(final(self)@) && forall|p: Pos|
                #[trigger] hosts(final(self)@, p) ==> hosts(old(self)@, p) || (label_columns(
                    *graph,
                ).contains(p) && !hosts(old(self)@, p)),
            final(self)@ == hydrated(
                label_columns(*graph),
                old(self)@,
                state.column_counts@.len() as int,
            ),
            final(self).mwt_am == old(self).mwt_am,
    {
        let k = state.column_counts.len();
        let ghost t = self@;
        let ghost lc = label_columns(*graph);
        let mut l: Vec<(u32, u32)> = Vec::new();
        let mut i: usize = 0;
        while i < graph.labels.len()
            invariant
                i <= graph.labels@.len(),
                forall|j: int| 0 <= j < graph.labels@.len() ==> #[trigger] graph.labels@[j]
                    < graph.node_pos@.len(),
                l@.len() == i,
                forall|j: int| 0 <= j < i ==> l@[j] == graph.node_pos@[graph.labels@[j] as int],
            decreases graph.labels.len() - i,
        {
            l.push(graph.node_pos[graph.labels[i]]);
            i += 1;
        }
        assert(l@ =~= lc);
        let mut next: Vec<usize> = Vec::new();
        let mut c: usize = 0;
        while c < k
            invariant
                c <= k,
                k <= u32::MAX,
                next@.len() == c,
                forall|j: int|
                    0 <= j < c ==> #[trigger] next@[j] == labels_below(l@, j, l@.len() as int)
                        && next@[j] <= l@.len(),
            decreases k - c,
        {
            let mut count: usize = 0;
            let mut j: usize = 0;
            while j < l.len()
                invariant
                    j <= l@.len(),
                    count == labels_below(l@, c as int, j as int),
                    count <= j,
                decreases l.len() - j,
            {
                if (l[j].0 as usize) < c {
                    count += 1;
                }
                j += 1;
            }
            next.push(count);
            c += 1;
        }
        let mut trace: Vec<Vec<(u32, u32)>> = Vec::new();
        core::mem::swap(&mut trace, &mut self.clusters);
        assert(rows_of(trace@) == t);
        let mut out: Vec<Vec<(u32, u32)>> = Vec::new();
        let ghost mut h = hydrate_clusters(lc, t, k as int, 0);
        assert(h.next =~= Seq::new(next@.len(), |c: int| next@[c] as int));
        let n = trace.len();
        let mut x: usize = 0;
        while x < n
            invariant
                x <= n,
                n == trace@.len(),
                t == rows_of(trace@),
                l@ == lc,
                k == state.column_counts@.len(),
                constraints_known(t, k as int),
                h == hydrate_clusters(lc, t, k as int, x as int),
                next@.len() == k,
                h.next.len() == k,
                forall|c: int| 0 <= c < k ==> #[trigger] next@[c] == h.next[c] && next@[c] <= l@.len(),
                rows_of(out@) == h.out,
            decreases n - x,
        {
            let tr = &trace[x];
            assert(tr@ == t[x as int]);
            let ghost h0 = h;
            let mut a: usize = 0;
            while a < tr.len()
                invariant
                    a <= tr@.len(),
                    x < n,
                    n == trace@.len(),
                    t == rows_of(trace@),
                    tr@ == t[x as int],
                    l@ == lc,
                    constraints_known(t, k as int),
                    h == hydrate_columns(h0, lc, tr@, a as int),
                    next@.len() == k,
                    h.next.len() == k,
                    forall|c: int|
                        0 <= c < k ==> #[trigger] next@[c] == h.next[c] && next@[c] <= l@.len(),
                    rows_of(out@) == h.out,
                decreases tr.len() - a,
            {
                let e = tr[a];
                assert(t[x as int][a as int].0 < k);
                let at = next[e.0 as usize];
                let r = catch_up_exec(&l, e.0, e.1 as u64, at, &mut out);
                next[e.0 as usize] = r;
                proof {
                    h = hydrate_column(h, lc, e);
                }
                a += 1;
            }
            let mut copy: Vec<(u32, u32)> = Vec::new();
            let mut b: usize = 0;
            while b < tr.len()
                invariant
                    b <= tr@.len(),
                    copy@ == tr@.take(b as int),
                decreases tr.len() - b,
            {
                copy.push(tr[b]);
                b += 1;
                assert(copy@ =~= tr@.take(b as int));
            }
            assert(tr@.take(tr@.len() as int) =~= tr@);
            let ghost o0 = rows_of(out@);
            out.push(copy);
            proof {
                assert(rows_of(out@) =~= o0.push(tr@));
                h = Hydration { next: h.next, out: h.out.push(tr@) };
            }
            x += 1;
        }
        let ghost h1 = h;
        let mut c: usize = 0;
        while c < k
            invariant
                c <= k,
                k <= u32::MAX,
                l@ == lc,
                h == hydrate_rest(h1, lc, c as int),
                next@.len() == k,
                h.next.len() == k,
                forall|j: int| 0 <= j < k ==> #[trigger] next@[j] == h.next[j] && next@[j] <= l@.len(),
                rows_of(out@) == h.out,
            decreases k - c,
        {
            let at = next[c];
            let r = catch_up_exec(&l, c as u32, 0x1_0000_0000, at, &mut out);
            next[c] = r;
            proof {
                h = Hydration { next: h.next.update(c as int, r as int), out: rows_of(out@) };
            }
            c += 1;
        }
        self.clusters = out;
        proof {
            let kk = state.column_counts@.len() as int;
            assert(self@ == hydrated(lc, t, kk));
            let idx = lemma_hydrated(lc, t, kk);
            assert(filled_in(t, self@, lc, idx));
            if by_constraint(lc) {
                assert forall|i: int| 0 <= i < lc.len() && (#[trigger] lc[i]).0 < kk implies hosts(
                    self@,
                    lc[i],
                ) by {
                    lemma_hydrated_holds(lc, t, kk, i);
                }
            }
            if labels_rise(lc) && walkable(t, kk) {
                lemma_hydrated_once(lc, t, kk);
            }
        }
    }
}

} // verus!
