use vstd::prelude::*;
use ahash::AHashMap;
use crate::error::GcmError;
use crate::maps::{entries_get, entries_insert, entries_new, entries_of};
use crate::sums::{grid_total, lemma_grid_point, lemma_grid_same, lemma_grid_zero};

verus! {

/// The largest sum that the weights of a graph may reach: scores are recorded in 32 bits.
pub const WEIGHT_CAP: u64 = 0xffff_ffff;

/// The largest number of nodes of a graph.
pub const NODE_CAP: usize = 0xffff_ffff;

/// An undirected edge between two columns, stored with its smaller node first.
#[derive(Copy, Clone, Debug)]
pub struct Edge {
    pub u: usize,
    pub v: usize,
    pub w: u64,
}

/// The weighted edges of a graph: each edge once, in the order in which it first came, and a
/// map from its two nodes to its place.
pub struct Sims {
    pub edges: Vec<Edge>,
    pub index: AHashMap<u64, u64>,
}

/// The key under which the pair of nodes is filed.
pub open spec fn pair_key(u: usize, v: usize) -> u64 {
    (u * 0x1_0000_0000 + v) as u64
}

/// The sum of the weights of the first `n` edges.
pub open spec fn weight_sum(edges: Seq<Edge>, n: int) -> int
    decreases n,
{
    if n <= 0 {
        0
    } else {
        weight_sum(edges, n - 1) + edges[n - 1].w
    }
}

pub proof fn lemma_weight_sum_same(a: Seq<Edge>, b: Seq<Edge>, n: int)
    requires
        0 <= n <= a.len(),
        n <= b.len(),
        forall|i: int| 0 <= i < n ==> a[i].w == b[i].w,
    ensures
        weight_sum(a, n) == weight_sum(b, n),
    decreases n,
{
    if n > 0 {
        lemma_weight_sum_same(a, b, n - 1);
    }
}

pub proof fn lemma_weight_sum_update(edges: Seq<Edge>, i: int, e: Edge, n: int)
    requires
        0 <= i < edges.len(),
        0 <= n <= edges.len(),
    ensures
        weight_sum(edges.update(i, e), n) == weight_sum(edges, n) + (if i < n {
            e.w - edges[i].w
        } else {
            0
        }),
    decreases n,
{
    if n > 0 {
        lemma_weight_sum_update(edges, i, e, n - 1);
    }
}

pub proof fn lemma_weight_sum_bounds(edges: Seq<Edge>, i: int, n: int)
    requires
        0 <= i < n <= edges.len(),
    ensures
        edges[i].w <= weight_sum(edges, n),
        0 <= weight_sum(edges, i) <= weight_sum(edges, n),
    decreases n,
{
    lemma_weight_sum_nonneg(edges, i);
    if i < n - 1 {
        lemma_weight_sum_bounds(edges, i, n - 1);
    } else {
        lemma_weight_sum_nonneg(edges, n - 1);
    }
}

pub proof fn lemma_weight_sum_nonneg(edges: Seq<Edge>, n: int)
    ensures
        0 <= weight_sum(edges, n),
    decreases n,
{
    if n > 0 {
        lemma_weight_sum_nonneg(edges, n - 1);
    }
}

impl Sims {
    /// The sum of all weights.
    pub open spec fn total(&self) -> int {
        weight_sum(self.edges@, self.edges@.len() as int)
    }

    /// Every edge joins two different nodes, smaller first, with a weight above zero; no pair
    /// of nodes has two edges; the weights add up to `WEIGHT_CAP` at most.
    pub open spec fn wf(&self) -> bool {
        &&& forall|i: int|
            0 <= i < self.edges@.len() ==> {
                let e = #[trigger] self.edges@[i];
                &&& e.u < e.v <= NODE_CAP
                &&& e.w > 0
                &&& entries_of(self.index).contains_key(pair_key(e.u, e.v))
                &&& entries_of(self.index)[pair_key(e.u, e.v)] == i
            }
        &&& forall|k: u64| #[trigger]
            entries_of(self.index).contains_key(k) ==> {
                let i = entries_of(self.index)[k];
                &&& i < self.edges@.len()
                &&& pair_key(self.edges@[i as int].u, self.edges@[i as int].v) == k
            }
        &&& self.total() <= WEIGHT_CAP
    }

    /// Whether an edge joins `u` and `v`, in this direction.
    pub open spec fn has_edge(&self, u: usize, v: usize) -> bool {
        exists|i: int|
            0 <= i < self.edges@.len() && (#[trigger] self.edges@[i]).u == u && self.edges@[i].v
                == v
    }

    /// The weight of the edge from `u` to `v`, or zero where there is none.
    pub open spec fn weight(&self, u: usize, v: usize) -> u64 {
        if self.has_edge(u, v) {
            let i = choose|i: int|
                0 <= i < self.edges@.len() && (#[trigger] self.edges@[i]).u == u
                    && self.edges@[i].v == v;
            self.edges@[i].w
        } else {
            0
        }
    }

    /// In a well-formed store an edge is found by its nodes.
    pub proof fn lemma_weight_at(&self, i: int)
        requires
            self.wf(),
            0 <= i < self.edges@.len(),
        ensures
            self.has_edge(self.edges@[i].u, self.edges@[i].v),
            self.weight(self.edges@[i].u, self.edges@[i].v) == self.edges@[i].w,
            self.edges@[i].w <= WEIGHT_CAP,
    {
        let e = self.edges@[i];
        let j = choose|j: int|
            0 <= j < self.edges@.len() && (#[trigger] self.edges@[j]).u == e.u && self.edges@[j].v
                == e.v;
        assert(entries_of(self.index)[pair_key(self.edges@[j].u, self.edges@[j].v)] == j);
        lemma_weight_sum_bounds(self.edges@, i, self.edges@.len() as int);
    }

    /// Where the store holds an edge, it holds none in the other direction: no second weight
    /// is stored for the two nodes.
    pub proof fn lemma_one_direction(&self, u: usize, v: usize)
        requires
            self.wf(),
            self.has_edge(u, v),
        ensures
            u < v,
            !self.has_edge(v, u),
            self.weight(v, u) == 0,
    {
        let i = choose|i: int|
            0 <= i < self.edges@.len() && (#[trigger] self.edges@[i]).u == u && self.edges@[i].v
                == v;
        assert(self.edges@[i].u < self.edges@[i].v);
        if self.has_edge(v, u) {
            let j = choose|j: int|
                0 <= j < self.edges@.len() && (#[trigger] self.edges@[j]).u == v
                    && self.edges@[j].v == u;
            assert(self.edges@[j].u < self.edges@[j].v);
        }
    }

    /// Every weight is at most `WEIGHT_CAP`.
    pub proof fn lemma_weight_bound(&self, u: usize, v: usize)
        requires
            self.wf(),
        ensures
            self.weight(u, v) <= WEIGHT_CAP,
    {
        if self.has_edge(u, v) {
            let i = choose|i: int|
                0 <= i < self.edges@.len() && (#[trigger] self.edges@[i]).u == u
                    && self.edges@[i].v == v;
            self.lemma_weight_at(i);
        }
    }

    /// A store without edges.
    pub fn new() -> (r: Self)
        ensures
            r.wf(),
            r.edges@.len() == 0,
    {
        Sims { edges: Vec::new(), index: entries_new() }
    }

    /// The place of the edge from `u` to `v`, if there is one.
    fn find(&self, u: usize, v: usize) -> (r: Option<usize>)
        requires
            self.wf(),
        ensures
            match r {
                Some(i) => i < self.edges@.len() && self.edges@[i as int].u == u
                    && self.edges@[i as int].v == v,
                None => !self.has_edge(u, v),
            },
    {
        if u > NODE_CAP || v > NODE_CAP {
            assert forall|i: int| 0 <= i < self.edges@.len() implies !((
            #[trigger] self.edges@[i]).u == u && self.edges@[i].v == v) by {
                assert(self.edges@[i].u < self.edges@[i].v <= NODE_CAP);
            }
            return None;
        }
        let key: u64 = u as u64 * 0x1_0000_0000 + v as u64;
        assert(key == pair_key(u, v));
        match entries_get(&self.index, key) {
            Some(i) => {
                let n = self.edges.len();
                assert(entries_of(self.index).contains_key(key));
                assert(i < n);
                let ghost e = self.edges@[i as int];
                assert(pair_key(e.u, e.v) == key);
                assert(e.u < e.v <= NODE_CAP);
                assert(e.u == u && e.v == v);
                Some(i as usize)
            },
            None => {
                assert forall|i: int| 0 <= i < self.edges@.len() implies !((
                #[trigger] self.edges@[i]).u == u && self.edges@[i].v == v) by {
                    let e = self.edges@[i];
                    assert(entries_of(self.index).contains_key(pair_key(e.u, e.v)));
                }
                None
            },
        }
    }

    /// The weight of the edge from `u` to `v`, or zero where there is none.
    pub fn get(&self, u: usize, v: usize) -> (w: u64)
        requires
            self.wf(),
        ensures
            w == self.weight(u, v),
            w <= WEIGHT_CAP,
    {
        proof {
            self.lemma_weight_bound(u, v);
        }
        match self.find(u, v) {
            Some(i) => {
                proof {
                    self.lemma_weight_at(i as int);
                }
                self.edges[i].w
            },
            None => 0,
        }
    }

    /// Adds `w` to the weight between two nodes, whichever is given first; the edge is made
    /// where there was none. Fails, and changes nothing, where the sum of all weights would
    /// pass `WEIGHT_CAP`.
    pub fn add(&mut self, a: usize, b: usize, w: u64) -> (r: Result<(), GcmError>)
        requires
            old(self).wf(),
            a != b,
            a <= NODE_CAP,
            b <= NODE_CAP,
            w > 0,
        ensures
            final(self).wf(),
            old(self).total() + w > WEIGHT_CAP <==> r == Err::<(), GcmError>(
                GcmError::WeightOverflow,
            ),
            r.is_err() ==> *final(self) == *old(self),
            r.is_err() ==> r == Err::<(), GcmError>(GcmError::WeightOverflow),
            r.is_ok() ==> {
                let (u, v) = if a < b {
                    (a, b)
                } else {
                    (b, a)
                };
                &&& final(self).total() == old(self).total() + w
                &&& final(self).weight(u, v) == old(self).weight(u, v) + w
                &&& forall|x: usize, y: usize|
                    (x != u || y != v) ==> final(self).weight(x, y) == old(self).weight(x, y)
                &&& forall|x: usize, y: usize|
                    final(self).has_edge(x, y) <==> old(self).has_edge(x, y) || (x == u && y == v)
                &&& final(self).edges@.len() >= old(self).edges@.len()
                &&& !old(self).has_edge(u, v) ==> final(self).edges@ == old(self).edges@.push(
                    (Edge { u, v, w }),
                )
                &&& old(self).has_edge(u, v) ==> final(self).edges@.len() == old(
                    self,
                ).edges@.len()
                &&& forall|i: int|
                    0 <= i < old(self).edges@.len() ==> (#[trigger] final(self).edges@[i]).u
                        == old(self).edges@[i].u && final(self).edges@[i].v == old(
                        self,
                    ).edges@[i].v
            },
    {
        let (u, v) = if a < b {
            (a, b)
        } else {
            (b, a)
        };
        let n = self.edges.len();
        let mut sum: u64 = 0;
        let mut i: usize = 0;
        while i < n
            invariant
                i <= n,
                n == self.edges@.len(),
                self.total() <= WEIGHT_CAP,
                sum == weight_sum(self.edges@, i as int),
            decreases n - i,
        {
            proof {
                lemma_weight_sum_bounds(self.edges@, i as int, n as int);
                lemma_weight_sum_nonneg(self.edges@, i as int);
                if i + 1 < n {
                    lemma_weight_sum_bounds(self.edges@, i as int + 1, n as int);
                }
            }
            sum = sum + self.edges[i].w;
            i += 1;
        }
        if w > WEIGHT_CAP - sum {
            return Err(GcmError::WeightOverflow);
        }
        let ghost before = *self;
        match self.find(u, v) {
            Some(i) => {
                proof {
                    before.lemma_weight_at(i as int);
                    lemma_weight_sum_update(
                        before.edges@,
                        i as int,
                        Edge { u, v, w: (before.edges@[i as int].w + w) as u64 },
                        n as int,
                    );
                }
                let old_w = self.edges[i].w;
                self.edges[i] = Edge { u, v, w: old_w + w };
                proof {
                    assert(self.edges@ == before.edges@.update(
                        i as int,
                        Edge { u, v, w: (old_w + w) as u64 },
                    ));
                    assert(self.wf());
                    assert forall|x: usize, y: usize|
                        self.has_edge(x, y) <==> before.has_edge(x, y) by {
                        if self.has_edge(x, y) {
                            let j = choose|j: int|
                                0 <= j < self.edges@.len() && (#[trigger] self.edges@[j]).u == x
                                    && self.edges@[j].v == y;
                            assert(before.edges@[j].u == x && before.edges@[j].v == y);
                        }
                        if before.has_edge(x, y) {
                            let j = choose|j: int|
                                0 <= j < before.edges@.len() && (#[trigger] before.edges@[j]).u
                                    == x && before.edges@[j].v == y;
                            assert(self.edges@[j].u == x && self.edges@[j].v == y);
                        }
                    }
                    assert(self.edges@[i as int].u == u && self.edges@[i as int].v == v);
                    self.lemma_weight_at(i as int);
                    assert forall|x: usize, y: usize| (x != u || y != v) implies self.weight(x, y)
                        == before.weight(x, y) by {
                        if before.has_edge(x, y) {
                            let j = choose|j: int|
                                0 <= j < before.edges@.len() && (#[trigger] before.edges@[j]).u
                                    == x && before.edges@[j].v == y;
                            before.lemma_weight_at(j);
                            assert(self.edges@[j] == before.edges@[j]);
                            self.lemma_weight_at(j);
                        }
                    }
                }
            },
            None => {
                let key: u64 = u as u64 * 0x1_0000_0000 + v as u64;
                assert(key == pair_key(u, v));
                entries_insert(&mut self.index, key, n as u64);
                self.edges.push(Edge { u, v, w });
                proof {
                    lemma_weight_sum_same(before.edges@, self.edges@, n as int);
                    assert forall|i: int| 0 <= i < self.edges@.len() implies {
                        let e = #[trigger] self.edges@[i];
                        &&& e.u < e.v <= NODE_CAP
                        &&& e.w > 0
                        &&& entries_of(self.index).contains_key(pair_key(e.u, e.v))
                        &&& entries_of(self.index)[pair_key(e.u, e.v)] == i
                    } by {
                        if i < n {
                            let e = before.edges@[i];
                            assert(self.edges@[i] == e);
                            assert(entries_of(before.index).contains_key(pair_key(e.u, e.v)));
                            assert(pair_key(e.u, e.v) != key);
                        }
                    }
                    assert forall|k: u64| #[trigger]
                        entries_of(self.index).contains_key(k) implies {
                        let i = entries_of(self.index)[k];
                        &&& i < self.edges@.len()
                        &&& pair_key(self.edges@[i as int].u, self.edges@[i as int].v) == k
                    } by {
                        if k != key {
                            assert(entries_of(before.index).contains_key(k));
                            let i = entries_of(before.index)[k];
                            assert(self.edges@[i as int] == before.edges@[i as int]);
                        }
                    }
                    assert(self.wf());
                    assert(self.edges@[n as int].u == u && self.edges@[n as int].v == v);
                    self.lemma_weight_at(n as int);
                    assert forall|x: usize, y: usize|
                        self.has_edge(x, y) <==> before.has_edge(x, y) || (x == u && y
                            == v) by {
                        if self.has_edge(x, y) {
                            let j = choose|j: int|
                                0 <= j < self.edges@.len() && (#[trigger] self.edges@[j]).u == x
                                    && self.edges@[j].v == y;
                            if j < n {
                                assert(before.edges@[j].u == x && before.edges@[j].v == y);
                            }
                        }
                        if before.has_edge(x, y) {
                            let j = choose|j: int|
                                0 <= j < before.edges@.len() && (#[trigger] before.edges@[j]).u
                                    == x && before.edges@[j].v == y;
                            assert(self.edges@[j].u == x && self.edges@[j].v == y);
                        }
                    }
                    assert forall|x: usize, y: usize| (x != u || y != v) implies self.weight(x, y)
                        == before.weight(x, y) by {
                        if before.has_edge(x, y) {
                            let j = choose|j: int|
                                0 <= j < before.edges@.len() && (#[trigger] before.edges@[j]).u
                                    == x && before.edges@[j].v == y;
                            before.lemma_weight_at(j);
                            assert(self.edges@[j] == before.edges@[j]);
                            self.lemma_weight_at(j);
                        }
                    }
                }
            },
        }
        Ok(())
    }
}


/// The weights of the first `k` edges, each counted as often as `c` says for its nodes.
pub open spec fn listed(edges: Seq<Edge>, c: spec_fn(int, int) -> int, k: int) -> int
    decreases k,
{
    if k <= 0 {
        0
    } else {
        listed(edges, c, k - 1) + c(edges[k - 1].u as int, edges[k - 1].v as int) * edges[k - 1].w
    }
}

/// The weights of those of the first `k` edges that join `u` and `v`.
pub open spec fn among(edges: Seq<Edge>, k: int, u: int, v: int) -> int
    decreases k,
{
    if k <= 0 {
        0
    } else {
        among(edges, k - 1, u, v) + (if edges[k - 1].u == u && edges[k - 1].v == v {
            edges[k - 1].w as int
        } else {
            0
        })
    }
}

/// The weights of a list of edges, each counted as `c` says, add up to the sum over all
/// pairs of nodes of what the list holds for the pair, counted as `c` says.
pub proof fn lemma_listed(edges: Seq<Edge>, c: spec_fn(int, int) -> int, k: int, n: int)
    requires
        0 <= k <= edges.len(),
        forall|i: int| 0 <= i < k ==> (#[trigger] edges[i]).u < n && edges[i].v < n,
    ensures
        listed(edges, c, k) == grid_total(|u: int, v: int| c(u, v) * among(edges, k, u, v), n, n),
    decreases k,
{
    let f1 = |u: int, v: int| c(u, v) * among(edges, k, u, v);
    if k == 0 {
        assert forall|u: int, v: int| 0 <= u < n && 0 <= v < n implies #[trigger] f1(u, v) == 0 by {}
        lemma_grid_zero(f1, n, n);
    } else {
        lemma_listed(edges, c, k - 1, n);
        let f0 = |u: int, v: int| c(u, v) * among(edges, k - 1, u, v);
        let e = edges[k - 1];
        let a = e.u as int;
        let b = e.v as int;
        let d = c(a, b) * e.w;
        assert forall|u: int, v: int| 0 <= u < n && 0 <= v < n && !(u == a && v == b) implies #[trigger] f1(
            u,
            v,
        ) == f0(u, v) by {}
        assert(f1(a, b) == f0(a, b) + d) by (nonlinear_arith)
            requires
                f1(a, b) == c(a, b) * among(edges, k, a, b),
                f0(a, b) == c(a, b) * among(edges, k - 1, a, b),
                among(edges, k, a, b) == among(edges, k - 1, a, b) + e.w,
                d == c(a, b) * e.w,
        ;
        lemma_grid_point(f0, f1, n, n, a, b, d);
    }
}

proof fn lemma_among_none(edges: Seq<Edge>, k: int, u: int, v: int)
    requires
        0 <= k <= edges.len(),
        forall|i: int| 0 <= i < k ==> !((#[trigger] edges[i]).u == u && edges[i].v == v),
    ensures
        among(edges, k, u, v) == 0,
    decreases k,
{
    if k > 0 {
        lemma_among_none(edges, k - 1, u, v);
    }
}

impl Sims {
    /// What a list of edges holds for a pair of nodes is the weight of the pair.
    pub proof fn lemma_among(&self, k: int, u: usize, v: usize)
        requires
            self.wf(),
            0 <= k <= self.edges@.len(),
        ensures
            among(self.edges@, k, u as int, v as int) == (if exists|i: int|
                0 <= i < k && (#[trigger] self.edges@[i]).u == u && self.edges@[i].v == v {
                self.weight(u, v) as int
            } else {
                0
            }),
        decreases k,
    {
        if k > 0 {
            self.lemma_among(k - 1, u, v);
            let e = self.edges@[k - 1];
            if e.u == u && e.v == v {
                self.lemma_weight_at(k - 1);
                // the pair has no edge before this one
                assert forall|i: int| 0 <= i < k - 1 implies !((#[trigger] self.edges@[i]).u == u
                    && self.edges@[i].v == v) by {
                    if self.edges@[i].u == u && self.edges@[i].v == v {
                        assert(entries_of(self.index)[pair_key(u, v)] == i);
                        assert(entries_of(self.index)[pair_key(u, v)] == k - 1);
                    }
                }
                lemma_among_none(self.edges@, k - 1, u as int, v as int);
                assert(0 <= k - 1 < k && self.edges@[k - 1].u == u && self.edges@[k - 1].v == v);
            } else {
                if exists|i: int|
                    0 <= i < k && (#[trigger] self.edges@[i]).u == u && self.edges@[i].v == v {
                    let i = choose|i: int|
                        0 <= i < k && (#[trigger] self.edges@[i]).u == u && self.edges@[i].v == v;
                    assert(0 <= i < k - 1);
                }
            }
        }
    }

    /// The weight between two nodes as a function of whole numbers: nothing where one of the
    /// two is no node number.
    pub open spec fn weight_at(&self, u: int, v: int) -> int {
        if 0 <= u <= usize::MAX && 0 <= v <= usize::MAX {
            self.weight(u as usize, v as usize) as int
        } else {
            0
        }
    }

    /// The weights of the store, each counted as `c` says, add up to the sum over all pairs
    /// of nodes of the weight of the pair, counted as `c` says.
    pub proof fn lemma_counted(&self, c: spec_fn(int, int) -> int, n: int)
        requires
            self.wf(),
            0 <= n <= usize::MAX,
            forall|i: int| 0 <= i < self.edges@.len() ==> (#[trigger] self.edges@[i]).v < n,
        ensures
            listed(self.edges@, c, self.edges@.len() as int) == grid_total(
                |u: int, v: int| c(u, v) * self.weight_at(u, v),
                n,
                n,
            ),
    {
        let k = self.edges@.len() as int;
        assert forall|i: int| 0 <= i < k implies (#[trigger] self.edges@[i]).u < n
            && self.edges@[i].v < n by {
            assert(self.edges@[i].u < self.edges@[i].v);
        }
        lemma_listed(self.edges@, c, k, n);
        let f = |u: int, v: int| c(u, v) * among(self.edges@, k, u, v);
        let g = |u: int, v: int| c(u, v) * self.weight_at(u, v);
        assert forall|u: int, v: int| 0 <= u < n && 0 <= v < n implies #[trigger] f(u, v) == g(
            u,
            v,
        ) by {
            self.lemma_among(k, u as usize, v as usize);
            if !(exists|i: int|
                0 <= i < k && (#[trigger] self.edges@[i]).u == u as usize && self.edges@[i].v
                    == v as usize) {
                assert(!self.has_edge(u as usize, v as usize));
            }
        }
        lemma_grid_same(f, g, n, n);
    }

    /// The weights of the store add up to the sum of the weights of all pairs of nodes.
    pub proof fn lemma_total(&self, n: int)
        requires
            self.wf(),
            0 <= n <= usize::MAX,
            forall|i: int| 0 <= i < self.edges@.len() ==> (#[trigger] self.edges@[i]).v < n,
        ensures
            self.total() == grid_total(|u: int, v: int| self.weight_at(u, v), n, n),
    {
        let one = |u: int, v: int| 1int;
        self.lemma_counted(one, n);
        lemma_listed_one(self.edges@, self.edges@.len() as int);
        let f = |u: int, v: int| one(u, v) * self.weight_at(u, v);
        let g = |u: int, v: int| self.weight_at(u, v);
        assert forall|u: int, v: int| 0 <= u < n && 0 <= v < n implies #[trigger] f(u, v) == g(
            u,
            v,
        ) by {}
        lemma_grid_same(f, g, n, n);
    }
}

proof fn lemma_listed_one(edges: Seq<Edge>, k: int)
    requires
        0 <= k <= edges.len(),
    ensures
        listed(edges, |u: int, v: int| 1int, k) == weight_sum(edges, k),
    decreases k,
{
    if k > 0 {
        lemma_listed_one(edges, k - 1);
    }
}

} // verus!
