//! Minimum-spanning-tree builder.
//!
//! Every nonzero cell of the matrix becomes an arc; the arcs are sorted
//! ascending by weight, ties keeping extraction (row-major) order, and then
//! scanned greedily: an arc joining two components is accepted, one inside a
//! single component is skipped.  The scan stops early once `N - 1` arcs are
//! accepted and the reachability check confirms a single component.  On a
//! disconnected graph the scan simply exhausts the arcs and returns the
//! forest it accumulated: callers detect disconnection by an accepted count
//! below `N - 1`.

use crate::graph::Graph;
use vstd::prelude::*;

verus! {

/// One extracted arc of the matrix: endpoints and weight.
pub struct Arc {
    pub from: usize,
    pub to: usize,
    pub weight: i64,
}

impl Arc {
    /// Bundles the three fields of an arc.
    pub fn new(from: usize, to: usize, weight: i64) -> (r: Arc)
        ensures
            r.from == from,
            r.to == to,
            r.weight == weight,
    {
        Arc { from, to, weight }
    }
}

/// Row-major cell index of an arc in an `n`-node matrix: the extraction
/// order, which is the tie-break key of the stable sort.
pub open spec fn arc_index(a: Arc, n: int) -> int {
    a.from * n + a.to
}

/// The strict order the extracted arc list is sorted by: ascending weight,
/// equal weights in extraction order.
pub open spec fn arc_before(a: Arc, b: Arc, n: int) -> bool {
    ||| a.weight < b.weight
    ||| (a.weight == b.weight && arc_index(a, n) < arc_index(b, n))
}

/// Is `a` an arc of `g`: endpoints in range and a nonzero matrix cell.
pub open spec fn arc_of(g: Graph, a: Arc) -> bool {
    &&& (a.from as int) < g.node_count()
    &&& (a.to as int) < g.node_count()
    &&& g.edge(a.from as int, a.to as int) == a.weight as int
    &&& a.weight != 0
}

proof fn lemma_lex_index(af: int, at: int, bf: int, bt: int, n: int)
    requires
        0 <= af,
        0 <= at < n,
        0 <= bf,
        0 <= bt < n,
        af < bf || (af == bf && at < bt),
    ensures
        af * n + at < bf * n + bt,
{
    if af < bf {
        assert(af * n + at < bf * n + bt) by (nonlinear_arith)
            requires
                af < bf,
                0 <= at < n,
                0 <= bt,
        ;
    }
}

/// Extracts every nonzero cell as an arc, sorted ascending by weight with
/// ties in row-major extraction order.  The result holds exactly the
/// nonzero cells of the matrix, each exactly once, in that order.
pub fn extract_arcs(graph: &Graph) -> (r: Vec<Arc>)
    requires
        graph.wf(),
    ensures
        forall|k: int| 0 <= k < r@.len() ==> arc_of(*graph, #[trigger] r@[k]),
        forall|k: int, l: int|
            0 <= k < l < r@.len() ==> arc_before(r@[k], r@[l], graph.node_count()),
        forall|a: int, b: int|
            0 <= a < graph.node_count() && 0 <= b < graph.node_count() && #[trigger] graph.edge(
                a,
                b,
            ) != 0 ==> exists|k: int|
                0 <= k < r@.len() && (#[trigger] r@[k]).from == a && r@[k].to == b,
{
    let n = graph.size();
    let mut out: Vec<Arc> = Vec::new();
    for i in 0..n
        invariant
            graph.wf(),
            n == graph.node_count(),
            forall|k: int| 0 <= k < out@.len() ==> arc_of(*graph, #[trigger] out@[k]),
            forall|k: int, l: int|
                0 <= k < l < out@.len() ==> arc_before(out@[k], out@[l], n as int),
            forall|k: int|
                0 <= k < out@.len() ==> ((#[trigger] out@[k]).from as int) < i,
            forall|a: int, b: int|
                0 <= a < i && 0 <= b < n && #[trigger] graph.edge(a, b) != 0 ==> exists|k: int|
                    0 <= k < out@.len() && (#[trigger] out@[k]).from == a && out@[k].to == b,
    {
        for j in 0..n
            invariant
                graph.wf(),
                n == graph.node_count(),
                i < n,
                forall|k: int| 0 <= k < out@.len() ==> arc_of(*graph, #[trigger] out@[k]),
                forall|k: int, l: int|
                    0 <= k < l < out@.len() ==> arc_before(out@[k], out@[l], n as int),
                forall|k: int|
                    0 <= k < out@.len() ==> ((#[trigger] out@[k]).from as int) < i || (
                    (#[trigger] out@[k]).from == i && ((out@[k].to as int) < j)),
                forall|a: int, b: int|
                    (0 <= a < i && 0 <= b < n || a == i && 0 <= b < j) && #[trigger] graph.edge(
                        a,
                        b,
                    ) != 0 ==> exists|k: int|
                        0 <= k < out@.len() && (#[trigger] out@[k]).from == a && out@[k].to == b,
        {
            let w = graph.weight(i, j);
            if w != 0 {
                let mut pos: usize = 0;
                while pos < out.len() && out[pos].weight <= w
                    invariant
                        pos <= out@.len(),
                        forall|k: int| 0 <= k < pos ==> (#[trigger] out@[k]).weight <= w,
                    decreases out@.len() - pos,
                {
                    pos = pos + 1;
                }
                let ghost pre = out@;
                out.insert(pos, Arc::new(i, j, w));
                proof {
                    let e = Arc { from: i, to: j, weight: w };
                    assert(out@[pos as int] == e);
                    pre.insert_ensures(pos as int, e);
                    // every element keeps or gains its place
                    assert forall|k: int| 0 <= k < out@.len() implies arc_of(
                        *graph,
                        #[trigger] out@[k],
                    ) by {
                        if k < pos {
                            assert(out@[k] == pre[k]);
                        } else if k > pos {
                            assert(out@[k] == pre[k - 1]);
                        }
                    }
                    assert forall|k: int|
                        0 <= k < out@.len() implies ((#[trigger] out@[k]).from as int) < i || (
                        (#[trigger] out@[k]).from == i && ((out@[k].to as int) < j + 1)) by {
                        if k < pos {
                            assert(out@[k] == pre[k]);
                        } else if k > pos {
                            assert(out@[k] == pre[k - 1]);
                        }
                    }
                    // the sort order is kept around the insertion point
                    assert forall|k: int, l: int|
                        0 <= k < l < out@.len() implies arc_before(
                        out@[k],
                        out@[l],
                        n as int,
                    ) by {
                        if l < pos {
                            assert(out@[k] == pre[k] && out@[l] == pre[l]);
                        } else if k < pos && l == pos {
                            assert(out@[k] == pre[k]);
                            assert(pre[k].weight <= w);
                            if pre[k].weight == w {
                                lemma_lex_index(
                                    pre[k].from as int,
                                    pre[k].to as int,
                                    i as int,
                                    j as int,
                                    n as int,
                                );
                            }
                        } else if k < pos && l > pos {
                            assert(out@[k] == pre[k] && out@[l] == pre[l - 1]);
                        } else if k == pos && l > pos {
                            assert(out@[l] == pre[l - 1]);
                            assert(pre[pos as int].weight > w);
                            if pos < l - 1 {
                                assert(arc_before(pre[pos as int], pre[l - 1], n as int));
                            }
                            assert(pre[l - 1].weight > w);
                        } else {
                            assert(out@[k] == pre[k - 1] && out@[l] == pre[l - 1]);
                        }
                    }
                    // every cell handled so far still has its arc
                    assert forall|a: int, b: int|
                        (0 <= a < i && 0 <= b < n || a == i && 0 <= b < j + 1)
                            && #[trigger] graph.edge(a, b) != 0 implies exists|k: int|
                        0 <= k < out@.len() && (#[trigger] out@[k]).from == a && out@[k].to
                            == b by {
                        if a == i && b == j {
                            assert(out@[pos as int].from == a && out@[pos as int].to == b);
                        } else {
                            let k0 = choose|k: int|
                                0 <= k < pre.len() && (#[trigger] pre[k]).from == a && pre[k].to
                                    == b;
                            if k0 < pos {
                                assert(out@[k0] == pre[k0]);
                            } else {
                                assert(out@[k0 + 1] == pre[k0]);
                            }
                        }
                    }
                }
            }
        }
        proof {
            assert forall|k: int|
                0 <= k < out@.len() implies ((#[trigger] out@[k]).from as int) < i + 1 by {}
        }
    }
    out
}

/// The node set gathered after one scan of the first `k` arcs, starting
/// from `r`: an arc with one endpoint already gathered contributes the
/// other, an arc with neither contributes nothing on this scan.
pub open spec fn grow(tree: Seq<(usize, usize)>, r: Set<usize>, k: int) -> Set<usize>
    decreases k,
{
    if k <= 0 {
        r
    } else {
        let prev = grow(tree, r, k - 1);
        let e = tree[k - 1];
        if prev.contains(e.0) {
            prev.insert(e.1)
        } else if prev.contains(e.1) {
            prev.insert(e.0)
        } else {
            prev
        }
    }
}

/// The nodes reachable from the first arc's endpoints after `rounds` full
/// scans of the arc list.  As many scans as there are arcs reach the full
/// closure: every productive scan gathers at least one node, and each arc
/// past the first contributes at most one.
pub open spec fn closure(tree: Seq<(usize, usize)>, rounds: int) -> Set<usize>
    decreases rounds,
{
    if rounds <= 0 {
        if tree.len() == 0 {
            Set::empty()
        } else {
            Set::empty().insert(tree[0].0).insert(tree[0].1)
        }
    } else {
        grow(tree, closure(tree, rounds - 1), tree.len() as int)
    }
}

/// What [`connected`] decides: every arc of the list has both endpoints in
/// the reachability closure of the first arc, so the arcs form a single
/// connected component.  An empty list passes vacuously.
pub open spec fn connected_spec(tree: Seq<(usize, usize)>) -> bool {
    forall|k: int|
        0 <= k < tree.len() ==> closure(tree, tree.len() as int).contains(
            (#[trigger] tree[k]).0,
        ) && closure(tree, tree.len() as int).contains(tree[k].1)
}

proof fn lemma_to_set_push(s: Seq<usize>, x: usize)
    ensures
        s.push(x).to_set() == s.to_set().insert(x),
{
    assert forall|y: usize| s.push(x).contains(y) implies s.to_set().insert(x).contains(y) by {
        let m = choose|m: int| 0 <= m < s.push(x).len() && s.push(x)[m] == y;
        if m < s.len() {
            assert(s[m] == y);
        }
    }
    assert forall|y: usize| s.to_set().insert(x).contains(y) implies s.push(x).contains(y) by {
        if s.contains(y) {
            let m = choose|m: int| 0 <= m < s.len() && s[m] == y;
            assert(s.push(x)[m] == y);
        } else {
            assert(s.push(x)[s.len() as int] == x);
        }
    }
    assert(s.push(x).to_set() =~= s.to_set().insert(x));
}

/// Reachability check over an accepted arc list: gathers the nodes
/// reachable from the first arc and reports whether every arc lies inside
/// that single component.
pub fn connected(tree: &Vec<(usize, usize)>) -> (r: bool)
    ensures
        r == connected_spec(tree@),
{
    let n = tree.len();
    if n == 0 {
        return true;
    }
    let mut reach: Vec<usize> = Vec::new();
    let first = tree[0];
    reach.push(first.0);
    proof {
        lemma_to_set_push(Seq::empty(), first.0);
        assert(Seq::<usize>::empty().to_set() =~= Set::<usize>::empty());
    }
    reach.push(first.1);
    proof {
        lemma_to_set_push(seq![first.0], first.1);
        assert(reach@ == seq![first.0].push(first.1));
        assert(reach@.to_set() == closure(tree@, 0));
    }
    for round in 0..n
        invariant
            n == tree@.len(),
            1 <= n,
            reach@.to_set() == closure(tree@, round as int),
    {
        for k in 0..n
            invariant
                n == tree@.len(),
                1 <= n,
                round < n,
                reach@.to_set() == grow(tree@, closure(tree@, round as int), k as int),
        {
            let e = tree[k];
            let ghost pre = reach@;
            if crate::utils::contains_node(&reach, e.0) {
                reach.push(e.1);
                proof {
                    lemma_to_set_push(pre, e.1);
                }
            } else if crate::utils::contains_node(&reach, e.1) {
                reach.push(e.0);
                proof {
                    lemma_to_set_push(pre, e.0);
                }
            }
            proof {
                assert(pre.to_set() == grow(tree@, closure(tree@, round as int), k as int));
                assert(pre.to_set().contains(e.0) == pre.contains(e.0));
                assert(pre.to_set().contains(e.1) == pre.contains(e.1));
            }
        }
    }
    for k in 0..n
        invariant
            n == tree@.len(),
            reach@.to_set() == closure(tree@, n as int),
            forall|m: int|
                0 <= m < k ==> closure(tree@, n as int).contains((#[trigger] tree@[m]).0)
                    && closure(tree@, n as int).contains(tree@[m].1),
    {
        let e = tree[k];
        if !crate::utils::contains_node(&reach, e.0) || !crate::utils::contains_node(
            &reach,
            e.1,
        ) {
            return false;
        }
    }
    true
}

/// Are `a` and `b` joined by an edge in either direction?  The builder
/// treats the matrix as undirected, as its symmetry assumption says.
pub open spec fn linked(g: Graph, a: usize, b: usize) -> bool {
    g.edge(a as int, b as int) != 0 || g.edge(b as int, a as int) != 0
}

/// Is `p` an undirected path of `g` from `a` to `b`?
pub open spec fn joined(g: Graph, p: Seq<usize>, a: usize, b: usize) -> bool {
    &&& p.len() >= 1
    &&& p[0] == a
    &&& p.last() == b
    &&& forall|k: int| 0 <= k < p.len() ==> ((#[trigger] p[k]) as int) < g.node_count()
    &&& forall|k: int| 0 <= k < p.len() - 1 ==> linked(g, #[trigger] p[k], p[k + 1])
}

/// Do `a` and `b` lie in one component of the undirected nonzero-edge
/// graph?  Every node shares its component with itself.
pub open spec fn same_component(g: Graph, a: usize, b: usize) -> bool {
    exists|p: Seq<usize>| joined(g, p, a, b)
}

proof fn lemma_same_component_refl(g: Graph, a: usize)
    requires
        (a as int) < g.node_count(),
    ensures
        same_component(g, a, a),
{
    assert(joined(g, seq![a], a, a));
}

proof fn lemma_same_component_step(g: Graph, a: usize, b: usize)
    requires
        (a as int) < g.node_count(),
        (b as int) < g.node_count(),
        linked(g, a, b),
    ensures
        same_component(g, a, b),
{
    let p = seq![a, b];
    assert(joined(g, p, a, b)) by {
        assert(p[0] == a && p[1] == b);
        assert(linked(g, p[0], p[1]));
    }
}

proof fn lemma_same_component_sym(g: Graph, a: usize, b: usize)
    requires
        same_component(g, a, b),
    ensures
        same_component(g, b, a),
{
    let p = choose|p: Seq<usize>| joined(g, p, a, b);
    let q = p.reverse();
    assert(joined(g, q, b, a)) by {
        assert(q[0] == p[p.len() - 1]);
        assert(q[q.len() - 1] == p[0]);
        assert forall|k: int| 0 <= k < q.len() implies ((#[trigger] q[k]) as int)
            < g.node_count() by {
            assert(q[k] == p[p.len() - 1 - k]);
        }
        assert forall|k: int|
            0 <= k < q.len() - 1 implies linked(g, #[trigger] q[k], q[k + 1]) by {
            assert(q[k] == p[p.len() - 1 - k]);
            assert(q[k + 1] == p[p.len() - 2 - k]);
            assert(linked(g, p[p.len() - 2 - k], p[p.len() - 1 - k]));
        }
    }
}

proof fn lemma_same_component_trans(g: Graph, a: usize, b: usize, c: usize)
    requires
        same_component(g, a, b),
        same_component(g, b, c),
    ensures
        same_component(g, a, c),
{
    let p1 = choose|p: Seq<usize>| joined(g, p, a, b);
    let p2 = choose|p: Seq<usize>| joined(g, p, b, c);
    let q = p1 + p2.subrange(1, p2.len() as int);
    assert(joined(g, q, a, c)) by {
        assert(q[0] == p1[0]);
        assert(q[q.len() - 1] == if p2.len() == 1 {
            p1[p1.len() - 1]
        } else {
            p2[p2.len() - 1]
        });
        assert forall|k: int| 0 <= k < q.len() implies ((#[trigger] q[k]) as int)
            < g.node_count() by {
            if k < p1.len() {
                assert(q[k] == p1[k]);
            } else {
                assert(q[k] == p2[k - p1.len() + 1]);
            }
        }
        assert forall|k: int|
            0 <= k < q.len() - 1 implies linked(g, #[trigger] q[k], q[k + 1]) by {
            if k + 1 < p1.len() {
                assert(q[k] == p1[k] && q[k + 1] == p1[k + 1]);
            } else if k + 1 == p1.len() {
                assert(q[k] == p1[k]);
                assert(q[k + 1] == p2[1]);
                assert(p1[p1.len() - 1] == b && p2[0] == b);
                assert(linked(g, p2[0], p2[1]));
            } else {
                assert(q[k] == p2[k - p1.len() + 1]);
                assert(q[k + 1] == p2[k - p1.len() + 2]);
                assert(linked(g, p2[k - p1.len() + 1], p2[k - p1.len() + 2]));
            }
        }
    }
}

/// When every undirected edge already joins nodes of equal representative,
/// a whole undirected path does too.
proof fn lemma_joined_same_root(g: Graph, parent: Seq<usize>, p: Seq<usize>, a: usize, b: usize)
    requires
        joined(g, p, a, b),
        parent.len() == g.node_count(),
        forall|x: usize, y: usize|
            (x as int) < g.node_count() && (y as int) < g.node_count() && #[trigger] linked(
                g,
                x,
                y,
            ) ==> root_of(parent, x as int) == root_of(parent, y as int),
    ensures
        root_of(parent, a as int) == root_of(parent, b as int),
    decreases p.len(),
{
    if p.len() > 1 {
        let q = p.subrange(1, p.len() as int);
        assert(linked(g, p[0], p[1]));
        assert(joined(g, q, p[1], b)) by {
            assert(q[0] == p[1]);
            assert(q[q.len() - 1] == p[p.len() - 1]);
            assert forall|k: int| 0 <= k < q.len() implies ((#[trigger] q[k]) as int)
                < g.node_count() by {
                assert(q[k] == p[k + 1]);
            }
            assert forall|k: int|
                0 <= k < q.len() - 1 implies linked(g, #[trigger] q[k], q[k + 1]) by {
                assert(q[k] == p[k + 1]);
                assert(q[k + 1] == p[k + 2]);
                assert(linked(g, p[k + 1], p[k + 2]));
            }
        }
        lemma_joined_same_root(g, parent, q, p[1], b);
    }
}

/// Are `a` and `b` the two ends of some accepted arc, in either order?
pub open spec fn list_linked(es: Seq<(usize, usize)>, a: usize, b: usize) -> bool {
    exists|k: int| 0 <= k < es.len() && ((#[trigger] es[k]) == (a, b) || es[k] == (b, a))
}

/// Is `p` a walk from `a` to `b` over the accepted arcs?
pub open spec fn list_joined(es: Seq<(usize, usize)>, p: Seq<usize>, a: usize, b: usize) -> bool {
    &&& p.len() >= 1
    &&& p[0] == a
    &&& p.last() == b
    &&& forall|k: int| 0 <= k < p.len() - 1 ==> list_linked(es, #[trigger] p[k], p[k + 1])
}

/// Does the reachability closure over the accepted arcs join `a` and `b`?
pub open spec fn tree_connects(es: Seq<(usize, usize)>, a: usize, b: usize) -> bool {
    exists|p: Seq<usize>| list_joined(es, p, a, b)
}

proof fn lemma_tree_connects_refl(es: Seq<(usize, usize)>, a: usize)
    ensures
        tree_connects(es, a, a),
{
    assert(list_joined(es, seq![a], a, a));
}

proof fn lemma_tree_connects_push(es: Seq<(usize, usize)>, e: (usize, usize), a: usize, b: usize)
    requires
        tree_connects(es, a, b),
    ensures
        tree_connects(es.push(e), a, b),
{
    let p = choose|p: Seq<usize>| list_joined(es, p, a, b);
    assert(list_joined(es.push(e), p, a, b)) by {
        assert forall|k: int|
            0 <= k < p.len() - 1 implies list_linked(es.push(e), #[trigger] p[k], p[k + 1]) by {
            assert(list_linked(es, p[k], p[k + 1]));
            let m = choose|m: int|
                0 <= m < es.len() && ((#[trigger] es[m]) == (p[k], p[k + 1]) || es[m] == (
                    p[k + 1],
                    p[k],
                ));
            assert(es.push(e)[m] == es[m]);
        }
    }
}

proof fn lemma_tree_connects_step(es: Seq<(usize, usize)>, a: usize, b: usize)
    requires
        list_linked(es, a, b),
    ensures
        tree_connects(es, a, b),
{
    let p = seq![a, b];
    assert(list_joined(es, p, a, b)) by {
        assert(p[0] == a && p[1] == b);
        assert(list_linked(es, p[0], p[1]));
    }
}

proof fn lemma_tree_connects_sym(es: Seq<(usize, usize)>, a: usize, b: usize)
    requires
        tree_connects(es, a, b),
    ensures
        tree_connects(es, b, a),
{
    let p = choose|p: Seq<usize>| list_joined(es, p, a, b);
    let q = p.reverse();
    assert(list_joined(es, q, b, a)) by {
        assert(q[0] == p[p.len() - 1]);
        assert(q[q.len() - 1] == p[0]);
        assert forall|k: int|
            0 <= k < q.len() - 1 implies list_linked(es, #[trigger] q[k], q[k + 1]) by {
            assert(q[k] == p[p.len() - 1 - k]);
            assert(q[k + 1] == p[p.len() - 2 - k]);
            assert(list_linked(es, p[p.len() - 2 - k], p[p.len() - 1 - k]));
            let m = choose|m: int|
                0 <= m < es.len() && ((#[trigger] es[m]) == (p[p.len() - 2 - k], p[p.len() - 1
                    - k]) || es[m] == (p[p.len() - 1 - k], p[p.len() - 2 - k]));
        }
    }
}

proof fn lemma_tree_connects_trans(es: Seq<(usize, usize)>, a: usize, b: usize, c: usize)
    requires
        tree_connects(es, a, b),
        tree_connects(es, b, c),
    ensures
        tree_connects(es, a, c),
{
    let p1 = choose|p: Seq<usize>| list_joined(es, p, a, b);
    let p2 = choose|p: Seq<usize>| list_joined(es, p, b, c);
    let q = p1 + p2.subrange(1, p2.len() as int);
    assert(list_joined(es, q, a, c)) by {
        assert(q[0] == p1[0]);
        assert(q[q.len() - 1] == if p2.len() == 1 {
            p1[p1.len() - 1]
        } else {
            p2[p2.len() - 1]
        });
        assert forall|k: int|
            0 <= k < q.len() - 1 implies list_linked(es, #[trigger] q[k], q[k + 1]) by {
            if k + 1 < p1.len() {
                assert(q[k] == p1[k] && q[k + 1] == p1[k + 1]);
                assert(list_linked(es, p1[k], p1[k + 1]));
            } else if k + 1 == p1.len() {
                assert(q[k] == p1[k]);
                assert(q[k + 1] == p2[1]);
                assert(p1[p1.len() - 1] == b && p2[0] == b);
                assert(list_linked(es, p2[0], p2[1]));
            } else {
                assert(q[k] == p2[k - p1.len() + 1]);
                assert(q[k + 1] == p2[k - p1.len() + 2]);
                assert(list_linked(es, p2[k - p1.len() + 1], p2[k - p1.len() + 2]));
            }
        }
    }
}

/// The accepted pair `(u, v)` read back as the arc it came from.
pub open spec fn pair_arc(g: Graph, e: (usize, usize)) -> Arc {
    Arc { from: e.0, to: e.1, weight: g.edge(e.0 as int, e.1 as int) as i64 }
}

/// When every accepted arc already joins nodes of equal representative, a
/// whole walk over the accepted arcs does too.
proof fn lemma_list_joined_same_root(
    es: Seq<(usize, usize)>,
    parent: Seq<usize>,
    p: Seq<usize>,
    a: usize,
    b: usize,
)
    requires
        list_joined(es, p, a, b),
        forall|k: int|
            0 <= k < es.len() ==> root_of(parent, (#[trigger] es[k]).0 as int) == root_of(
                parent,
                es[k].1 as int,
            ),
    ensures
        root_of(parent, a as int) == root_of(parent, b as int),
    decreases p.len(),
{
    if p.len() > 1 {
        assert(list_linked(es, p[0], p[1]));
        let m = choose|m: int|
            0 <= m < es.len() && ((#[trigger] es[m]) == (p[0], p[1]) || es[m] == (p[1], p[0]));
        assert(root_of(parent, p[0] as int) == root_of(parent, p[1] as int));
        let q = p.subrange(1, p.len() as int);
        assert(list_joined(es, q, p[1], b)) by {
            assert(q[0] == p[1]);
            assert(q[q.len() - 1] == p[p.len() - 1]);
            assert forall|k: int|
                0 <= k < q.len() - 1 implies list_linked(es, #[trigger] q[k], q[k + 1]) by {
                assert(q[k] == p[k + 1]);
                assert(q[k + 1] == p[k + 2]);
                assert(list_linked(es, p[k + 1], p[k + 2]));
            }
        }
        lemma_list_joined_same_root(es, parent, q, p[1], b);
    }
}

/// Union-find shape: every parent pointer goes to an index no larger than
/// its own, so a walk toward the root strictly descends and terminates.
pub open spec fn uf_wf(parent: Seq<usize>) -> bool {
    forall|i: int| 0 <= i < parent.len() ==> ((#[trigger] parent[i]) as int) <= i
}

/// The representative the parent forest assigns to `x`.
pub open spec fn root_of(parent: Seq<usize>, x: int) -> int
    decreases x,
{
    if 0 <= x < parent.len() && (parent[x] as int) < x {
        root_of(parent, parent[x] as int)
    } else {
        x
    }
}

/// How many of the first `k` entries of the parent table are roots, that
/// is, point at themselves.  Accepted arcs and roots balance: every union
/// turns exactly one root into a non-root.
pub open spec fn count_roots(parent: Seq<usize>, k: int) -> int
    decreases k,
{
    if k <= 0 {
        0
    } else {
        count_roots(parent, k - 1) + if (parent[k - 1] as int) == k - 1 {
            1int
        } else {
            0int
        }
    }
}

proof fn lemma_count_roots_push(parent: Seq<usize>, v: usize, k: int)
    requires
        0 <= k <= parent.len(),
    ensures
        count_roots(parent.push(v), k) == count_roots(parent, k),
    decreases k,
{
    if k > 0 {
        lemma_count_roots_push(parent, v, k - 1);
    }
}

proof fn lemma_count_roots_update(parent: Seq<usize>, j: int, v: usize, k: int)
    requires
        0 <= j < parent.len(),
        (parent[j] as int) == j,
        (v as int) != j,
        0 <= k <= parent.len(),
    ensures
        count_roots(parent.update(j, v), k) == count_roots(parent, k) - (if j < k {
            1int
        } else {
            0int
        }),
    decreases k,
{
    if k > 0 {
        lemma_count_roots_update(parent, j, v, k - 1);
    }
}

/// What pointing the root `rb` at the distinct root `ra` does to every
/// representative: classes that answered `rb` now answer `ra`, all others
/// keep their representative.
proof fn lemma_root_of_update(parent: Seq<usize>, rb: int, ra: usize, x: int)
    requires
        uf_wf(parent),
        0 <= rb < parent.len(),
        (parent[rb] as int) == rb,
        (parent[ra as int] as int) == ra as int,
        (ra as int) < rb,
    ensures
        root_of(parent.update(rb, ra), x) == (if root_of(parent, x) == rb {
            ra as int
        } else {
            root_of(parent, x)
        }),
    decreases
            (if x >= 0 {
                x
            } else {
                0
            }),
{
    let parent2 = parent.update(rb, ra);
    if 0 <= x < parent.len() {
        if x == rb {
            assert(root_of(parent, x) == x);
            assert(root_of(parent2, ra as int) == ra as int);
        } else if (parent[x] as int) < x {
            lemma_root_of_update(parent, rb, ra, parent[x] as int);
        } else {
            assert(root_of(parent, x) == x);
            assert(root_of(parent2, x) == x);
        }
    }
}

proof fn lemma_count_roots_pos(parent: Seq<usize>, k: int)
    requires
        1 <= k <= parent.len(),
        (parent[0] as int) == 0,
    ensures
        count_roots(parent, k) >= 1,
    decreases k,
{
    if k > 1 {
        lemma_count_roots_pos(parent, k - 1);
    } else {
        assert(count_roots(parent, 0) == 0);
    }
}

proof fn lemma_root_of_is_root(parent: Seq<usize>, x: int)
    requires
        uf_wf(parent),
        0 <= x < parent.len(),
    ensures
        0 <= root_of(parent, x) < parent.len(),
        (parent[root_of(parent, x)] as int) == root_of(parent, x),
    decreases x,
{
    if (parent[x] as int) < x {
        lemma_root_of_is_root(parent, parent[x] as int);
    }
}

proof fn lemma_count_roots_mono(parent: Seq<usize>, k1: int, k2: int)
    requires
        0 <= k1 <= k2 <= parent.len(),
    ensures
        count_roots(parent, k1) <= count_roots(parent, k2),
    decreases k2,
{
    if k2 > k1 {
        lemma_count_roots_mono(parent, k1, k2 - 1);
    }
}

proof fn lemma_count_two_roots(parent: Seq<usize>, r1: int, r2: int)
    requires
        0 <= r1 < r2 < parent.len(),
        (parent[r1] as int) == r1,
        (parent[r2] as int) == r2,
    ensures
        count_roots(parent, parent.len() as int) >= 2,
{
    lemma_count_roots_mono(parent, 0, r1);
    assert(count_roots(parent, r1 + 1) == count_roots(parent, r1) + 1);
    lemma_count_roots_mono(parent, r1 + 1, r2);
    assert(count_roots(parent, r2 + 1) == count_roots(parent, r2) + 1);
    lemma_count_roots_mono(parent, r2 + 1, parent.len() as int);
}

proof fn lemma_count_single_root(parent: Seq<usize>, r0: int, k: int)
    requires
        0 <= r0 < parent.len(),
        (parent[r0] as int) == r0,
        forall|r: int| 0 <= r < parent.len() && ((#[trigger] parent[r]) as int) == r ==> r == r0,
        0 <= k <= parent.len(),
    ensures
        count_roots(parent, k) == if r0 < k {
            1int
        } else {
            0int
        },
    decreases k,
{
    if k > 0 {
        lemma_count_single_root(parent, r0, k - 1);
    }
}

/// Walks the parent table up to the representative.  Unions always point
/// the larger root at the smaller, so every parent pointer descends: that
/// descent is the walk's termination measure.  Path compression and union
/// by rank would speed the walk but need a rank-based measure instead; the
/// accepted arcs are identical either way.
fn find_root(parent: &Vec<usize>, node: usize) -> (r: usize)
    requires
        uf_wf(parent@),
        node < parent@.len(),
    ensures
        r < parent@.len(),
        parent@[r as int] == r,
        r as int == root_of(parent@, node as int),
{
    let mut x = node;
    while parent[x] != x
        invariant
            uf_wf(parent@),
            x < parent@.len(),
            root_of(parent@, x as int) == root_of(parent@, node as int),
        decreases x,
    {
        proof {
            assert((parent@[x as int] as int) < x as int);
        }
        x = parent[x];
    }
    x
}

/// Greedy spanning-forest construction over the sorted arc list.
///
/// Scans the arcs ascending by weight (ties in extraction order) and
/// accepts each arc whose endpoints lie in different components of the
/// forest accepted so far; the scan stops early once `N - 1` arcs are
/// accepted and [`connected`] confirms a single component.  Every returned
/// pair is a nonzero cell of the matrix and no pair repeats; when the
/// undirected nonzero-edge graph is connected the result is exactly `N - 1`
/// arcs whose closure joins every pair of nodes, and when it is not the
/// result stays strictly shorter than `N - 1`, which is how callers detect
/// disconnection.
pub fn kruskal(graph: &Graph) -> (r: Vec<(usize, usize)>)
    requires
        graph.wf(),
    ensures
        forall|k: int|
            0 <= k < r@.len() ==> ((#[trigger] r@[k]).0 as int) < graph.node_count() && (
            r@[k].1 as int) < graph.node_count() && graph.edge(r@[k].0 as int, r@[k].1 as int)
                != 0,
        graph.node_count() >= 1 ==> r@.len() <= graph.node_count() - 1,
        graph.node_count() == 0 ==> r@.len() == 0,
        forall|k: int, l: int|
            0 <= k < l < r@.len() ==> !((r@[k].0 == r@[l].0 && r@[k].1 == r@[l].1) || (r@[k].0
                == r@[l].1 && r@[k].1 == r@[l].0)),
        forall|k: int, l: int|
            0 <= k < l < r@.len() ==> arc_before(
                pair_arc(*graph, r@[k]),
                pair_arc(*graph, r@[l]),
                graph.node_count(),
            ),
        forall|k: int|
            0 <= k < r@.len() ==> !tree_connects(
                r@.subrange(0, k),
                (#[trigger] r@[k]).0,
                r@[k].1,
            ),
        (exists|u: int, v: int|
            0 <= u < graph.node_count() && 0 <= v < graph.node_count() && u != v
                && #[trigger] graph.edge(u, v) != 0) ==> r@.len() >= 1,
        graph.node_count() > 0 && (forall|a: int, b: int|
            0 <= a < graph.node_count() && 0 <= b < graph.node_count()
                ==> #[trigger] same_component(*graph, a as usize, b as usize)) ==> r@.len()
            == graph.node_count() - 1 && (forall|a: int, b: int|
            0 <= a < graph.node_count() && 0 <= b < graph.node_count() ==> #[trigger] tree_connects(
                r@,
                a as usize,
                b as usize,
            )),
        (exists|a: int, b: int|
            0 <= a < graph.node_count() && 0 <= b < graph.node_count() && !(
            #[trigger] same_component(*graph, a as usize, b as usize))) ==> r@.len()
            < graph.node_count() - 1,
{
    let n = graph.size();
    let arcs = extract_arcs(graph);
    let mut out: Vec<(usize, usize)> = Vec::new();
    let mut parent: Vec<usize> = Vec::new();
    for i in 0..n
        invariant
            parent@.len() == i,
            forall|k: int| 0 <= k < i ==> (#[trigger] parent@[k]) == k,
            count_roots(parent@, i as int) == i,
    {
        proof {
            lemma_count_roots_push(parent@, i, i as int);
        }
        parent.push(i);
    }
    proof {
        assert forall|x: int|
            0 <= x < n implies 0 <= #[trigger] root_of(parent@, x) < n && same_component(
            *graph,
            x as usize,
            root_of(parent@, x) as usize,
        ) && tree_connects(out@, x as usize, root_of(parent@, x) as usize) by {
            assert(parent@[x] == x);
            assert(root_of(parent@, x) == x);
            lemma_same_component_refl(*graph, x as usize);
            lemma_tree_connects_refl(out@, x as usize);
        }
    }
    let mut idx: usize = 0;
    while idx < arcs.len()
        invariant
            graph.wf(),
            n == graph.node_count(),
            idx <= arcs@.len(),
            forall|k: int| 0 <= k < arcs@.len() ==> arc_of(*graph, #[trigger] arcs@[k]),
            forall|k: int, l: int|
                0 <= k < l < arcs@.len() ==> arc_before(arcs@[k], arcs@[l], n as int),
            parent@.len() == n,
            uf_wf(parent@),
            forall|k: int|
                0 <= k < out@.len() ==> ((#[trigger] out@[k]).0 as int) < n && (out@[k].1 as int)
                    < n && graph.edge(out@[k].0 as int, out@[k].1 as int) != 0,
            out@.len() + count_roots(parent@, n as int) == n,
            forall|k: int|
                0 <= k < out@.len() ==> root_of(parent@, (#[trigger] out@[k]).0 as int)
                    == root_of(parent@, out@[k].1 as int),
            forall|k: int, l: int|
                0 <= k < l < out@.len() ==> !((out@[k].0 == out@[l].0 && out@[k].1 == out@[l].1)
                    || (out@[k].0 == out@[l].1 && out@[k].1 == out@[l].0)),
            out@.len() == 0 ==> (forall|k: int| 0 <= k < n ==> (#[trigger] parent@[k]) == k),
            out@.len() == 0 ==> (forall|k: int|
                0 <= k < idx ==> (#[trigger] arcs@[k]).from == arcs@[k].to),
            forall|x: int|
                0 <= x < n ==> 0 <= #[trigger] root_of(parent@, x) < n && same_component(
                    *graph,
                    x as usize,
                    root_of(parent@, x) as usize,
                ) && tree_connects(out@, x as usize, root_of(parent@, x) as usize),
            forall|k: int|
                0 <= k < idx ==> root_of(parent@, (#[trigger] arcs@[k]).from as int) == root_of(
                    parent@,
                    arcs@[k].to as int,
                ),
            forall|k: int, m: int|
                0 <= k < out@.len() && idx <= m < arcs@.len() ==> arc_before(
                    pair_arc(*graph, #[trigger] out@[k]),
                    #[trigger] arcs@[m],
                    n as int,
                ),
            forall|k: int, l: int|
                0 <= k < l < out@.len() ==> arc_before(
                    pair_arc(*graph, out@[k]),
                    pair_arc(*graph, out@[l]),
                    n as int,
                ),
            forall|k: int|
                0 <= k < out@.len() ==> !tree_connects(
                    out@.subrange(0, k),
                    (#[trigger] out@[k]).0,
                    out@[k].1,
                ),
        ensures
            out@.len() == 0 ==> (idx == arcs@.len() || n == 1),
            idx == arcs@.len() || (n > 0 && out@.len() == n - 1),
        decreases arcs@.len() - idx,
    {
        if n > 0 && out.len() == n - 1 && connected(&out) {
            break;
        }
        proof {
            assert(arc_of(*graph, arcs@[idx as int]));
        }
        let af = arcs[idx].from;
        let at = arcs[idx].to;
        let ra = find_root(&parent, af);
        let rb = find_root(&parent, at);
        if ra != rb {
            let ghost pre_out = out@;
            out.push((af, at));
            proof {
                // a pair whose endpoints already share a root was never
                // accepted, so the new pair repeats no earlier one
                assert forall|k: int, l: int|
                    0 <= k < l < out@.len() implies !((out@[k].0 == out@[l].0 && out@[k].1
                    == out@[l].1) || (out@[k].0 == out@[l].1 && out@[k].1 == out@[l].0)) by {
                    if l == out@.len() - 1 && k < l {
                        assert(out@[k] == pre_out[k]);
                        assert(root_of(parent@, pre_out[k].0 as int) == root_of(
                            parent@,
                            pre_out[k].1 as int,
                        ));
                    } else if l < out@.len() - 1 {
                        assert(out@[k] == pre_out[k]);
                        assert(out@[l] == pre_out[l]);
                    }
                }
                // the accepted pair is the arc under scan, so the output
                // keeps the scan's ascending order
                assert(pair_arc(*graph, (af, at)) == arcs@[idx as int]) by {
                    assert(arc_of(*graph, arcs@[idx as int]));
                }
                assert forall|k: int, m: int|
                    0 <= k < out@.len() && idx + 1 <= m < arcs@.len() implies arc_before(
                    pair_arc(*graph, #[trigger] out@[k]),
                    #[trigger] arcs@[m],
                    n as int,
                ) by {
                    if k < out@.len() - 1 {
                        assert(out@[k] == pre_out[k]);
                    } else {
                        assert(out@[k] == (af, at));
                        assert(arc_before(arcs@[idx as int], arcs@[m], n as int));
                    }
                }
                assert forall|k: int, l: int|
                    0 <= k < l < out@.len() implies arc_before(
                    pair_arc(*graph, out@[k]),
                    pair_arc(*graph, out@[l]),
                    n as int,
                ) by {
                    if l < out@.len() - 1 {
                        assert(out@[k] == pre_out[k] && out@[l] == pre_out[l]);
                    } else {
                        assert(out@[k] == pre_out[k]);
                        assert(out@[l] == (af, at));
                        assert(arc_before(pair_arc(*graph, pre_out[k]), arcs@[idx as int], n as int));
                    }
                }
                // the accepted arc joined two components, so it closes no cycle
                assert forall|k: int|
                    0 <= k < out@.len() implies !tree_connects(
                    out@.subrange(0, k),
                    (#[trigger] out@[k]).0,
                    out@[k].1,
                ) by {
                    if k < out@.len() - 1 {
                        assert(out@[k] == pre_out[k]);
                        assert(out@.subrange(0, k) =~= pre_out.subrange(0, k));
                    } else {
                        assert(out@[k] == (af, at));
                        assert(out@.subrange(0, k) =~= pre_out);
                        if tree_connects(pre_out, af, at) {
                            let p = choose|p: Seq<usize>| list_joined(pre_out, p, af, at);
                            lemma_list_joined_same_root(pre_out, parent@, p, af, at);
                            assert(false);
                        }
                    }
                }
            }
            let ghost pre = parent@;
            if ra < rb {
                parent[rb] = ra;
                proof {
                    lemma_count_roots_update(pre, rb as int, ra, n as int);
                    assert forall|k: int|
                        0 <= k < out@.len() implies root_of(
                        parent@,
                        (#[trigger] out@[k]).0 as int,
                    ) == root_of(parent@, out@[k].1 as int) by {
                        lemma_root_of_update(pre, rb as int, ra, out@[k].0 as int);
                        lemma_root_of_update(pre, rb as int, ra, out@[k].1 as int);
                        if k < out@.len() - 1 {
                            assert(out@[k] == pre_out[k]);
                        } else {
                            assert(out@[k] == (af, at));
                            assert(root_of(pre, af as int) == ra as int);
                            assert(root_of(pre, at as int) == rb as int);
                        }
                    }
                    assert(same_component(*graph, rb, ra)) by {
                        assert(same_component(*graph, at, root_of(pre, at as int) as usize));
                        lemma_same_component_sym(*graph, at, rb);
                        assert(linked(*graph, af, at));
                        lemma_same_component_step(*graph, af, at);
                        lemma_same_component_sym(*graph, af, at);
                        lemma_same_component_trans(*graph, rb, at, af);
                        assert(same_component(*graph, af, root_of(pre, af as int) as usize));
                        lemma_same_component_trans(*graph, rb, af, ra);
                    }
                    assert(tree_connects(out@, rb, ra)) by {
                        assert(out@[out@.len() - 1] == (af, at));
                        assert(list_linked(out@, af, at));
                        lemma_tree_connects_step(out@, af, at);
                        lemma_tree_connects_push(pre_out, (af, at), at, rb);
                        lemma_tree_connects_sym(out@, at, rb);
                        lemma_tree_connects_sym(out@, af, at);
                        lemma_tree_connects_trans(out@, rb, at, af);
                        lemma_tree_connects_push(pre_out, (af, at), af, ra);
                        lemma_tree_connects_trans(out@, rb, af, ra);
                    }
                    assert forall|x: int|
                        0 <= x < n implies 0 <= #[trigger] root_of(parent@, x) < n
                        && same_component(*graph, x as usize, root_of(parent@, x) as usize)
                        && tree_connects(out@, x as usize, root_of(parent@, x) as usize) by {
                        lemma_root_of_update(pre, rb as int, ra, x);
                        assert(0 <= root_of(pre, x) < n && same_component(
                            *graph,
                            x as usize,
                            root_of(pre, x) as usize,
                        ) && tree_connects(pre_out, x as usize, root_of(pre, x) as usize));
                        lemma_tree_connects_push(
                            pre_out,
                            (af, at),
                            x as usize,
                            root_of(pre, x) as usize,
                        );
                        if root_of(pre, x) == rb as int {
                            lemma_same_component_trans(*graph, x as usize, rb, ra);
                            lemma_tree_connects_trans(out@, x as usize, rb, ra);
                        }
                    }
                    assert forall|k: int|
                        0 <= k < idx + 1 implies root_of(
                        parent@,
                        (#[trigger] arcs@[k]).from as int,
                    ) == root_of(parent@, arcs@[k].to as int) by {
                        lemma_root_of_update(pre, rb as int, ra, arcs@[k].from as int);
                        lemma_root_of_update(pre, rb as int, ra, arcs@[k].to as int);
                        if k == idx {
                            assert(arcs@[k].from == af && arcs@[k].to == at);
                            assert(root_of(pre, af as int) == ra as int);
                            assert(root_of(pre, at as int) == rb as int);
                        }
                    }
                }
            } else {
                parent[ra] = rb;
                proof {
                    lemma_count_roots_update(pre, ra as int, rb, n as int);
                    assert forall|k: int|
                        0 <= k < out@.len() implies root_of(
                        parent@,
                        (#[trigger] out@[k]).0 as int,
                    ) == root_of(parent@, out@[k].1 as int) by {
                        lemma_root_of_update(pre, ra as int, rb, out@[k].0 as int);
                        lemma_root_of_update(pre, ra as int, rb, out@[k].1 as int);
                        if k < out@.len() - 1 {
                            assert(out@[k] == pre_out[k]);
                        } else {
                            assert(out@[k] == (af, at));
                            assert(root_of(pre, af as int) == ra as int);
                            assert(root_of(pre, at as int) == rb as int);
                        }
                    }
                    assert(same_component(*graph, ra, rb)) by {
                        assert(same_component(*graph, af, root_of(pre, af as int) as usize));
                        lemma_same_component_sym(*graph, af, ra);
                        assert(linked(*graph, af, at));
                        lemma_same_component_step(*graph, af, at);
                        lemma_same_component_trans(*graph, ra, af, at);
                        assert(same_component(*graph, at, root_of(pre, at as int) as usize));
                        lemma_same_component_trans(*graph, ra, at, rb);
                    }
                    assert(tree_connects(out@, ra, rb)) by {
                        assert(out@[out@.len() - 1] == (af, at));
                        assert(list_linked(out@, af, at));
                        lemma_tree_connects_step(out@, af, at);
                        lemma_tree_connects_push(pre_out, (af, at), af, ra);
                        lemma_tree_connects_sym(out@, af, ra);
                        lemma_tree_connects_trans(out@, ra, af, at);
                        lemma_tree_connects_push(pre_out, (af, at), at, rb);
                        lemma_tree_connects_trans(out@, ra, at, rb);
                    }
                    assert forall|x: int|
                        0 <= x < n implies 0 <= #[trigger] root_of(parent@, x) < n
                        && same_component(*graph, x as usize, root_of(parent@, x) as usize)
                        && tree_connects(out@, x as usize, root_of(parent@, x) as usize) by {
                        lemma_root_of_update(pre, ra as int, rb, x);
                        assert(0 <= root_of(pre, x) < n && same_component(
                            *graph,
                            x as usize,
                            root_of(pre, x) as usize,
                        ) && tree_connects(pre_out, x as usize, root_of(pre, x) as usize));
                        lemma_tree_connects_push(
                            pre_out,
                            (af, at),
                            x as usize,
                            root_of(pre, x) as usize,
                        );
                        if root_of(pre, x) == ra as int {
                            lemma_same_component_trans(*graph, x as usize, ra, rb);
                            lemma_tree_connects_trans(out@, x as usize, ra, rb);
                        }
                    }
                    assert forall|k: int|
                        0 <= k < idx + 1 implies root_of(
                        parent@,
                        (#[trigger] arcs@[k]).from as int,
                    ) == root_of(parent@, arcs@[k].to as int) by {
                        lemma_root_of_update(pre, ra as int, rb, arcs@[k].from as int);
                        lemma_root_of_update(pre, ra as int, rb, arcs@[k].to as int);
                        if k == idx {
                            assert(arcs@[k].from == af && arcs@[k].to == at);
                            assert(root_of(pre, af as int) == ra as int);
                            assert(root_of(pre, at as int) == rb as int);
                        }
                    }
                }
            }
        } else {
            proof {
                if out@.len() == 0 {
                    assert(parent@[af as int] == af);
                    assert(root_of(parent@, af as int) == af as int);
                    assert(parent@[at as int] == at);
                    assert(root_of(parent@, at as int) == at as int);
                    assert(af == at);
                }
                assert(root_of(parent@, arcs@[idx as int].from as int) == root_of(
                    parent@,
                    arcs@[idx as int].to as int,
                ));
            }
        }
        idx = idx + 1;
    }
    proof {
        if n >= 1 {
            lemma_count_roots_pos(parent@, n as int);
        }
        if exists|a: int, b: int|
            0 <= a < n && 0 <= b < n && !(#[trigger] same_component(
                *graph,
                a as usize,
                b as usize,
            )) {
            let (a, b) = choose|a: int, b: int|
                0 <= a < n && 0 <= b < n && !(#[trigger] same_component(
                    *graph,
                    a as usize,
                    b as usize,
                ));
            let r1 = root_of(parent@, a);
            let r2 = root_of(parent@, b);
            if r1 == r2 {
                lemma_same_component_sym(*graph, b as usize, r2 as usize);
                lemma_same_component_trans(*graph, a as usize, r1 as usize, b as usize);
                assert(false);
            }
            lemma_root_of_is_root(parent@, a);
            lemma_root_of_is_root(parent@, b);
            if r1 < r2 {
                lemma_count_two_roots(parent@, r1, r2);
            } else {
                lemma_count_two_roots(parent@, r2, r1);
            }
        }
        if n > 0 && (forall|a: int, b: int|
            0 <= a < n && 0 <= b < n ==> #[trigger] same_component(
                *graph,
                a as usize,
                b as usize,
            )) && out@.len() != n - 1 {
            assert(idx == arcs@.len());
            assert forall|x: usize, y: usize|
                (x as int) < n && (y as int) < n && #[trigger] linked(
                    *graph,
                    x,
                    y,
                ) implies root_of(parent@, x as int) == root_of(parent@, y as int) by {
                if graph.edge(x as int, y as int) != 0 {
                    let k = choose|k: int|
                        0 <= k < arcs@.len() && (#[trigger] arcs@[k]).from == x && arcs@[k].to
                            == y;
                    assert(root_of(parent@, arcs@[k].from as int) == root_of(
                        parent@,
                        arcs@[k].to as int,
                    ));
                } else {
                    assert(graph.edge(y as int, x as int) != 0);
                    let k = choose|k: int|
                        0 <= k < arcs@.len() && (#[trigger] arcs@[k]).from == y && arcs@[k].to
                            == x;
                    assert(root_of(parent@, arcs@[k].from as int) == root_of(
                        parent@,
                        arcs@[k].to as int,
                    ));
                }
            }
            let r0 = root_of(parent@, 0);
            lemma_root_of_is_root(parent@, 0);
            assert forall|r: int|
                0 <= r < n && ((#[trigger] parent@[r]) as int) == r implies r == r0 by {
                assert(same_component(*graph, r as usize, 0 as usize));
                let p = choose|p: Seq<usize>| #[trigger] joined(*graph, p, r as usize, 0 as usize);
                lemma_joined_same_root(*graph, parent@, p, r as usize, 0 as usize);
                assert(root_of(parent@, r) == r);
            }
            lemma_count_single_root(parent@, r0, n as int);
            assert(false);
        }
        if n > 0 && (forall|a: int, b: int|
            0 <= a < n && 0 <= b < n ==> #[trigger] same_component(
                *graph,
                a as usize,
                b as usize,
            )) {
            assert(out@.len() == n - 1);
            assert(count_roots(parent@, n as int) == 1);
            let r0 = root_of(parent@, 0);
            lemma_root_of_is_root(parent@, 0);
            assert forall|a: int, b: int|
                0 <= a < n && 0 <= b < n implies #[trigger] tree_connects(
                out@,
                a as usize,
                b as usize,
            ) by {
                lemma_root_of_is_root(parent@, a);
                lemma_root_of_is_root(parent@, b);
                let ra = root_of(parent@, a);
                let rb2 = root_of(parent@, b);
                if ra != r0 {
                    if ra < r0 {
                        lemma_count_two_roots(parent@, ra, r0);
                    } else {
                        lemma_count_two_roots(parent@, r0, ra);
                    }
                    assert(false);
                }
                if rb2 != r0 {
                    if rb2 < r0 {
                        lemma_count_two_roots(parent@, rb2, r0);
                    } else {
                        lemma_count_two_roots(parent@, r0, rb2);
                    }
                    assert(false);
                }
                assert(tree_connects(out@, a as usize, r0 as usize));
                assert(tree_connects(out@, b as usize, r0 as usize));
                lemma_tree_connects_sym(out@, b as usize, r0 as usize);
                lemma_tree_connects_trans(out@, a as usize, r0 as usize, b as usize);
            }
        }
        if out@.len() == 0 && exists|u: int, v: int|
            0 <= u < n && 0 <= v < n && u != v && #[trigger] graph.edge(u, v) != 0 {
            let (u, v) = choose|u: int, v: int|
                0 <= u < n && 0 <= v < n && u != v && #[trigger] graph.edge(u, v) != 0;
            assert(n >= 2);
            let k = choose|k: int|
                0 <= k < arcs@.len() && (#[trigger] arcs@[k]).from == u && arcs@[k].to == v;
            assert(arcs@[k].from == arcs@[k].to);
            assert(false);
        }
    }
    out
}

} // verus!
