use vstd::prelude::*;
use crate::cluster::Pos;
use crate::dsu::joined;
use crate::settle::{from_pair, is_end};
use crate::sims::Edge;

verus! {

/// Edge `j` joins labels `a` and `b`.
pub open spec fn ends_at(labels: Seq<usize>, edges: Seq<Edge>, j: int, a: int, b: int) -> bool {
    is_end(labels, edges, j, a, b) || is_end(labels, edges, j, b, a)
}

/// Some edge joins labels `a` and `b`.
pub open spec fn bond(labels: Seq<usize>, edges: Seq<Edge>, a: int, b: int) -> bool {
    exists|j: int| #[trigger] ends_at(labels, edges, j, a, b)
}

/// Labels `path[i]` and `path[i + 1]` are in one cluster, and an edge joins them.
pub open spec fn hop_at(
    reps: Seq<usize>,
    labels: Seq<usize>,
    edges: Seq<Edge>,
    path: Seq<int>,
    i: int,
) -> bool {
    &&& 0 <= path[i] < reps.len()
    &&& 0 <= path[i + 1] < reps.len()
    &&& reps[path[i]] == reps[path[i + 1]]
    &&& bond(labels, edges, path[i], path[i + 1])
}

/// A path of labels within one cluster, along edges.
pub open spec fn is_linkpath(
    reps: Seq<usize>,
    labels: Seq<usize>,
    edges: Seq<Edge>,
    path: Seq<int>,
) -> bool {
    &&& path.len() >= 1
    &&& 0 <= path[0] < reps.len()
    &&& forall|i: int| 0 <= i < path.len() - 1 ==> #[trigger] hop_at(reps, labels, edges, path, i)
}

/// A path within their cluster, along edges, leads from label `a` to label `b`.
pub open spec fn joined_in(
    reps: Seq<usize>,
    labels: Seq<usize>,
    edges: Seq<Edge>,
    a: int,
    b: int,
) -> bool {
    exists|path: Seq<int>|
        #[trigger] is_linkpath(reps, labels, edges, path) && path[0] == a && path[path.len() - 1]
            == b
}

/// Every cluster hangs together by edges.
pub open spec fn clusters_joined(reps: Seq<usize>, labels: Seq<usize>, edges: Seq<Edge>) -> bool {
    forall|a: int, b: int|
        0 <= a < reps.len() && 0 <= b < reps.len() && reps[a] == reps[b] ==> #[trigger] joined_in(
            reps,
            labels,
            edges,
            a,
            b,
        )
}

/// Label `a` of cluster `x` and label `b` of cluster `y` are joined by an edge.
pub open spec fn bond_of(
    reps: Seq<usize>,
    labels: Seq<usize>,
    edges: Seq<Edge>,
    x: int,
    y: int,
    a: int,
    b: int,
) -> bool {
    &&& 0 <= a < reps.len()
    &&& 0 <= b < reps.len()
    &&& reps[a] == x
    &&& reps[b] == y
    &&& bond(labels, edges, a, b)
}

/// Every linkage between two live clusters comes from an edge between a label of one and a
/// label of the other.
pub open spec fn keys_grounded(
    reps: Seq<usize>,
    dead: Seq<bool>,
    labels: Seq<usize>,
    edges: Seq<Edge>,
    maps: Seq<Map<u64, u64>>,
) -> bool {
    forall|x: int, y: u64|
        0 <= x < reps.len() && y < reps.len() && x != y && !dead[x] && !dead[y as int]
            && #[trigger] maps[x].contains_key(y) ==> exists|a: int, b: int| #[trigger]
            bond_of(reps, labels, edges, x, y as int, a, b)
}

proof fn lemma_bond_sym(labels: Seq<usize>, edges: Seq<Edge>, a: int, b: int)
    requires
        bond(labels, edges, a, b),
    ensures
        bond(labels, edges, b, a),
{
    let j = choose|j: int| #[trigger] ends_at(labels, edges, j, a, b);
    assert(ends_at(labels, edges, j, b, a));
}

proof fn lemma_path_same(reps: Seq<usize>, labels: Seq<usize>, edges: Seq<Edge>, path: Seq<int>, i: int)
    requires
        is_linkpath(reps, labels, edges, path),
        0 <= i < path.len(),
    ensures
        0 <= path[i] < reps.len(),
        reps[path[i]] == reps[path[0]],
    decreases i,
{
    if i > 0 {
        lemma_path_same(reps, labels, edges, path, i - 1);
        assert(hop_at(reps, labels, edges, path, i - 1));
    }
}

proof fn lemma_path_remap(
    reps: Seq<usize>,
    reps2: Seq<usize>,
    labels: Seq<usize>,
    edges: Seq<Edge>,
    path: Seq<int>,
)
    requires
        is_linkpath(reps, labels, edges, path),
        reps2.len() == reps.len(),
        forall|i: int, j: int|
            0 <= i < reps.len() && 0 <= j < reps.len() && reps[i] == reps[j] ==> #[trigger] reps2[i]
                == #[trigger] reps2[j],
    ensures
        is_linkpath(reps2, labels, edges, path),
{
    assert forall|i: int| 0 <= i < path.len() - 1 implies #[trigger] hop_at(
        reps2,
        labels,
        edges,
        path,
        i,
    ) by {
        assert(hop_at(reps, labels, edges, path, i));
    }
}

proof fn lemma_path_concat(
    reps: Seq<usize>,
    labels: Seq<usize>,
    edges: Seq<Edge>,
    p1: Seq<int>,
    p2: Seq<int>,
)
    requires
        is_linkpath(reps, labels, edges, p1),
        is_linkpath(reps, labels, edges, p2),
        reps[p1[p1.len() - 1]] == reps[p2[0]],
        bond(labels, edges, p1[p1.len() - 1], p2[0]),
    ensures
        is_linkpath(reps, labels, edges, p1 + p2),
{
    let p = p1 + p2;
    lemma_path_same(reps, labels, edges, p1, p1.len() - 1);
    assert forall|i: int| 0 <= i < p.len() - 1 implies #[trigger] hop_at(reps, labels, edges, p, i) by {
        if i < p1.len() - 1 {
            assert(hop_at(reps, labels, edges, p1, i));
        } else if i == p1.len() - 1 {
        } else {
            assert(hop_at(reps, labels, edges, p2, i - p1.len()));
        }
    }
}

/// Before any merge every cluster is one label, and every linkage that of an edge.
pub proof fn lemma_fresh_joined(reps: Seq<usize>, labels: Seq<usize>, edges: Seq<Edge>)
    requires
        forall|i: int| 0 <= i < reps.len() ==> #[trigger] reps[i] == i,
    ensures
        clusters_joined(reps, labels, edges),
{
    assert forall|a: int, b: int|
        0 <= a < reps.len() && 0 <= b < reps.len() && reps[a] == reps[b] implies #[trigger] joined_in(
        reps,
        labels,
        edges,
        a,
        b,
    ) by {
        assert(reps[a] == a && reps[b] == b);
        let path = seq![a];
        assert(is_linkpath(reps, labels, edges, path) && path[0] == a && path[path.len() - 1] == b);
    }
}

/// A merge along a linkage keeps every cluster hanging together by edges, and every linkage
/// grounded in an edge.
pub proof fn lemma_merge_keeps_joined(
    labels: Seq<usize>,
    edges: Seq<Edge>,
    reps: Seq<usize>,
    dead: Seq<bool>,
    maps: Seq<Map<u64, u64>>,
    l: usize,
    r: usize,
    w: usize,
    m: usize,
    reps2: Seq<usize>,
    dead2: Seq<bool>,
    maps2: Seq<Map<u64, u64>>,
)
    requires
        reps.len() <= usize::MAX,
        dead.len() == reps.len(),
        maps.len() == reps.len(),
        maps2.len() == reps.len(),
        forall|i: int| 0 <= i < reps.len() ==> (#[trigger] reps[i]) < reps.len(),
        l < reps.len(),
        r < reps.len(),
        l != r,
        !dead[l as int],
        !dead[r as int],
        (w == l && m == r) || (w == r && m == l),
        clusters_joined(reps, labels, edges),
        keys_grounded(reps, dead, labels, edges, maps),
        maps[l as int].contains_key(r as u64),
        reps2 == joined(reps, l, r, w),
        dead2 == dead.update(m as int, true),
        forall|x: int, k: u64|
            0 <= x < reps.len() && #[trigger] maps2[x].contains_key(k) ==> maps[x].contains_key(k) || (x
                == w && from_pair(reps.len() as int, maps, dead, l, r, k)) || (k == w && from_pair(
                reps.len() as int,
                maps,
                dead,
                l,
                r,
                x as u64,
            )),
    ensures
        clusters_joined(reps2, labels, edges),
        keys_grounded(reps2, dead2, labels, edges, maps2),
{
    let n = reps.len() as int;
    assert forall|i: int, j: int|
        0 <= i < n && 0 <= j < n && reps[i] == reps[j] implies #[trigger] reps2[i]
        == #[trigger] reps2[j] by {}
    let (la, rb) = choose|la: int, rb: int| #[trigger]
        bond_of(reps, labels, edges, l as int, r as int, la, rb);
    assert forall|a: int, b: int|
        0 <= a < n && 0 <= b < n && reps2[a] == reps2[b] implies #[trigger] joined_in(
        reps2,
        labels,
        edges,
        a,
        b,
    ) by {
        if reps[a] == reps[b] {
            assert(joined_in(reps, labels, edges, a, b));
            let path = choose|path: Seq<int>|
                #[trigger] is_linkpath(reps, labels, edges, path) && path[0] == a && path[path.len()
                    - 1] == b;
            lemma_path_remap(reps, reps2, labels, edges, path);
        } else {
            // one of the two is a label of `l`, the other of `r`
            let (a1, b1) = if reps[a] == l {
                (la, rb)
            } else {
                (rb, la)
            };
            assert(reps[a] == reps[a1] && reps[b] == reps[b1]);
            assert(joined_in(reps, labels, edges, a, a1));
            assert(joined_in(reps, labels, edges, b1, b));
            let p1 = choose|path: Seq<int>|
                #[trigger] is_linkpath(reps, labels, edges, path) && path[0] == a && path[path.len()
                    - 1] == a1;
            let p2 = choose|path: Seq<int>|
                #[trigger] is_linkpath(reps, labels, edges, path) && path[0] == b1 && path[path.len()
                    - 1] == b;
            lemma_path_remap(reps, reps2, labels, edges, p1);
            lemma_path_remap(reps, reps2, labels, edges, p2);
            if reps[a] != l {
                lemma_bond_sym(labels, edges, la, rb);
            }
            lemma_path_concat(reps2, labels, edges, p1, p2);
            let p = p1 + p2;
            assert(p[0] == a && p[p.len() - 1] == b);
        }
    }
    assert forall|x: int, y: u64|
        0 <= x < n && y < n && x != y && !dead2[x] && !dead2[y as int] && #[trigger] maps2[x].contains_key(
            y,
        ) implies exists|a: int, b: int| #[trigger]
        bond_of(reps2, labels, edges, x, y as int, a, b) by {
        if maps[x].contains_key(y) {
            let (a, b) = choose|a: int, b: int| #[trigger]
                bond_of(reps, labels, edges, x, y as int, a, b);
            assert(bond_of(reps2, labels, edges, x, y as int, a, b));
        } else if x == w && from_pair(n, maps, dead, l, r, y) {
            if maps[l as int].contains_key(y) {
                let (a, b) = choose|a: int, b: int| #[trigger]
                    bond_of(reps, labels, edges, l as int, y as int, a, b);
                assert(bond_of(reps2, labels, edges, x, y as int, a, b));
            } else {
                let (a, b) = choose|a: int, b: int| #[trigger]
                    bond_of(reps, labels, edges, r as int, y as int, a, b);
                assert(bond_of(reps2, labels, edges, x, y as int, a, b));
            }
        } else {
            assert(y == w && from_pair(n, maps, dead, l, r, x as u64));
            if maps[l as int].contains_key(x as u64) {
                let (a, b) = choose|a: int, b: int| #[trigger]
                    bond_of(reps, labels, edges, l as int, x, a, b);
                lemma_bond_sym(labels, edges, a, b);
                assert(bond_of(reps2, labels, edges, x, y as int, b, a));
            } else {
                let (a, b) = choose|a: int, b: int| #[trigger]
                    bond_of(reps, labels, edges, r as int, x, a, b);
                lemma_bond_sym(labels, edges, a, b);
                assert(bond_of(reps2, labels, edges, x, y as int, b, a));
            }
        }
    }
}

/// An edge of the graph joins the two columns.
pub open spec fn edge_between(npos: Seq<Pos>, edges: Seq<Edge>, p: Pos, q: Pos) -> bool {
    exists|j: int|
        0 <= j < edges.len() && ((npos[(#[trigger] edges[j]).u as int] == p && npos[edges[j].v as int]
            == q) || (npos[edges[j].u as int] == q && npos[edges[j].v as int] == p))
}

/// Columns `path[i]` and `path[i + 1]` are columns of the cluster, and an edge joins them.
pub open spec fn link_at(c: Seq<Pos>, npos: Seq<Pos>, edges: Seq<Edge>, path: Seq<Pos>, i: int) -> bool {
    c.contains(path[i]) && c.contains(path[i + 1]) && edge_between(npos, edges, path[i], path[i + 1])
}

/// A path of columns of the cluster, along edges of the graph.
pub open spec fn is_column_path(c: Seq<Pos>, npos: Seq<Pos>, edges: Seq<Edge>, path: Seq<Pos>) -> bool {
    &&& path.len() >= 1
    &&& forall|i: int| 0 <= i < path.len() - 1 ==> #[trigger] link_at(c, npos, edges, path, i)
}

/// A path of columns of the cluster, along edges of the graph, leads from `p` to `q`.
pub open spec fn path_joins(c: Seq<Pos>, npos: Seq<Pos>, edges: Seq<Edge>, p: Pos, q: Pos) -> bool {
    exists|path: Seq<Pos>|
        #[trigger] is_column_path(c, npos, edges, path) && path[0] == p && path[path.len() - 1] == q
}

/// The cluster hangs together by edges of the graph: from each of its columns a path of its
/// columns, along edges, leads to each other.
pub open spec fn hangs_together(c: Seq<Pos>, npos: Seq<Pos>, edges: Seq<Edge>) -> bool {
    forall|p: Pos, q: Pos| c.contains(p) && c.contains(q) ==> #[trigger] path_joins(c, npos, edges, p, q)
}

/// A path of labels of one cluster is a path of columns of that cluster in the trace.
pub proof fn lemma_column_path(
    c: Seq<Pos>,
    x: usize,
    npos: Seq<Pos>,
    labels: Seq<usize>,
    edges: Seq<Edge>,
    pos: Seq<Pos>,
    reps: Seq<usize>,
    path: Seq<int>,
)
    requires
        pos.len() == reps.len(),
        labels.len() == reps.len(),
        forall|i: int| 0 <= i < labels.len() ==> #[trigger] pos[i] == npos[labels[i] as int],
        forall|i: int| 0 <= i < reps.len() && reps[i] == x ==> c.contains(#[trigger] pos[i]),
        is_linkpath(reps, labels, edges, path),
        reps[path[0]] == x,
    ensures
        is_column_path(c, npos, edges, Seq::new(path.len(), |i: int| pos[path[i]])),
{
    let cols = Seq::new(path.len(), |i: int| pos[path[i]]);
    assert forall|i: int| 0 <= i < cols.len() - 1 implies #[trigger] link_at(c, npos, edges, cols, i) by {
        lemma_path_same(reps, labels, edges, path, i);
        lemma_path_same(reps, labels, edges, path, i + 1);
        assert(hop_at(reps, labels, edges, path, i));
        let a = path[i];
        let b = path[i + 1];
        let j = choose|j: int| #[trigger] ends_at(labels, edges, j, a, b);
        assert(edges[j] == edges[j]);
    }
}

} // verus!
