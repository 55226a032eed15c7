//! Frontier-based single-source shortest-path engine.
//!
//! The frontier is kept as three tables indexed by node id: a tentative-cost
//! table, a predecessor table, and the boolean set of finalized nodes.  The
//! engine requires nonnegative weights; on each round it finalizes the
//! unfinalized node with the smallest known tentative cost (ties go to the
//! lowest node index) and relaxes that node's outgoing edges.

use crate::graph::is_path;
use crate::graph::lemma_path_cost_nonneg;
use crate::graph::lemma_path_cost_prefix;
use crate::graph::lemma_path_cost_push;
use crate::graph::nonneg;
use crate::graph::path_cost;
use crate::graph::reachable;
use crate::graph::Graph;
use crate::graph::WEIGHT_LIMIT;
use crate::utils::build_path;
use crate::utils::chain_path;
use crate::utils::chain_reaches;
use crate::utils::initialize;
use crate::utils::lemma_chain_frame;
use crate::utils::lemma_chain_mono;
use vstd::prelude::*;

verus! {

/// How many entries of a boolean table are set.
pub open spec fn count_true(s: Seq<bool>) -> int
    decreases s.len(),
{
    if s.len() == 0 {
        0
    } else {
        count_true(s.drop_last()) + if s.last() {
            1int
        } else {
            0int
        }
    }
}

proof fn lemma_count_true_push(s: Seq<bool>, b: bool)
    ensures
        count_true(s.push(b)) == count_true(s) + if b {
            1int
        } else {
            0int
        },
{
    assert(s.push(b).drop_last() =~= s);
}

proof fn lemma_count_true_le(s: Seq<bool>)
    ensures
        0 <= count_true(s) <= s.len(),
    decreases s.len(),
{
    if s.len() > 0 {
        lemma_count_true_le(s.drop_last());
    }
}

proof fn lemma_count_true_update(s: Seq<bool>, i: int)
    requires
        0 <= i < s.len(),
        !s[i],
    ensures
        count_true(s.update(i, true)) == count_true(s) + 1,
    decreases s.len(),
{
    if i == s.len() - 1 {
        assert(s.update(i, true).drop_last() =~= s.drop_last());
    } else {
        lemma_count_true_update(s.drop_last(), i);
        assert(s.update(i, true).drop_last() =~= s.drop_last().update(i, true));
    }
}

/// The boolean table of finalized nodes at the start of a run: every node is
/// unfinalized except `begin`.
pub fn nodes(graph: &Graph, begin: usize) -> (r: Vec<bool>)
    ensures
        r@.len() == graph.node_count(),
        forall|i: int| 0 <= i < r@.len() ==> r@[i] == (i == begin),
        count_true(r@) == if (begin as int) < graph.node_count() {
            1int
        } else {
            0int
        },
{
    let n = graph.size();
    let mut r: Vec<bool> = Vec::new();
    for i in 0..n
        invariant
            n == graph.node_count(),
            r@.len() == i,
            forall|k: int| 0 <= k < i ==> r@[k] == (k == begin),
            count_true(r@) == if (begin as int) < i {
                1int
            } else {
                0int
            },
    {
        proof {
            lemma_count_true_push(r@, i == begin);
        }
        r.push(i == begin);
    }
    r
}

/// A node that the frontier-minimum step may still pick: not yet finalized
/// and with a known tentative cost.
pub open spec fn eligible(cost: Seq<Option<i64>>, selected: Seq<bool>, i: int) -> bool {
    &&& 0 <= i < cost.len()
    &&& !selected[i]
    &&& cost[i] is Some
}

/// `node` is the frontier pick: unfinalized with a known cost, of minimal
/// cost among such nodes, and the lowest index among those of that cost.
pub open spec fn min_choice(cost: Seq<Option<i64>>, selected: Seq<bool>, node: usize) -> bool {
    &&& eligible(cost, selected, node as int)
    &&& forall|j: int|
        #[trigger] eligible(cost, selected, j) ==> cost[node as int]->Some_0 <= cost[j]->Some_0
    &&& forall|j: int|
        #[trigger] eligible(cost, selected, j) && j < node ==> cost[node as int]->Some_0
            < cost[j]->Some_0
}

proof fn lemma_min_choice_unique(
    cost: Seq<Option<i64>>,
    selected: Seq<bool>,
    m1: usize,
    m2: usize,
)
    requires
        min_choice(cost, selected, m1),
        min_choice(cost, selected, m2),
    ensures
        m1 == m2,
{
    assert(eligible(cost, selected, m1 as int));
    assert(eligible(cost, selected, m2 as int));
    if m1 < m2 {
        assert(cost[m2 as int]->Some_0 < cost[m1 as int]->Some_0);
        assert(cost[m1 as int]->Some_0 <= cost[m2 as int]->Some_0);
    } else if m2 < m1 {
        assert(cost[m1 as int]->Some_0 < cost[m2 as int]->Some_0);
        assert(cost[m2 as int]->Some_0 <= cost[m1 as int]->Some_0);
    }
}

/// Returns the unfinalized node with the smallest known tentative cost,
/// ties going to the lowest node index; `None` when no unfinalized node has
/// a known cost (the remaining nodes are unreachable).
pub fn find_min_cost(cost: &Vec<Option<i64>>, selected: &Vec<bool>) -> (r: Option<usize>)
    requires
        selected@.len() == cost@.len(),
    ensures
        r is None <==> (forall|i: int| !eligible(cost@, selected@, i)),
        match r {
            Some(node) => min_choice(cost@, selected@, node),
            None => true,
        },
{
    let n = cost.len();
    let mut out: Option<usize> = None;
    let mut curr: i64 = 0;
    for i in 0..n
        invariant
            n == cost@.len(),
            selected@.len() == n,
            match out {
                Some(node) => {
                    &&& (node as int) < i
                    &&& eligible(cost@, selected@, node as int)
                    &&& curr == cost@[node as int]->Some_0
                    &&& forall|j: int|
                        #[trigger] eligible(cost@, selected@, j) && j < i ==> curr
                            <= cost@[j]->Some_0
                    &&& forall|j: int|
                        #[trigger] eligible(cost@, selected@, j) && j < node ==> curr
                            < cost@[j]->Some_0
                },
                None => forall|j: int| j < i ==> !eligible(cost@, selected@, j),
            },
    {
        if !selected[i] {
            match cost[i] {
                Some(v) => {
                    if out.is_none() || curr > v {
                        out = Some(i);
                        curr = v;
                    }
                },
                None => {},
            }
        }
    }
    out
}

/// Whether relaxing the outgoing edge `node -> i` improves node `i`:
/// `i` is unfinalized, the edge exists, and `c0` plus the edge weight beats
/// `i`'s current tentative cost (or `i` has none yet).
pub open spec fn relax_improves(
    g: Graph,
    node: usize,
    c0: int,
    selected: Seq<bool>,
    cost: Seq<Option<i64>>,
    i: int,
) -> bool {
    &&& !selected[i]
    &&& g.edge(node as int, i) != 0
    &&& (cost[i] is None || c0 + g.edge(node as int, i) < cost[i]->Some_0)
}

/// The cost table after relaxing every outgoing edge of `node`, as a
/// function of the tables before.
pub open spec fn relaxed_cost_table(
    g: Graph,
    node: usize,
    sel: Seq<bool>,
    cost: Seq<Option<i64>>,
) -> Seq<Option<i64>> {
    Seq::new(
        cost.len(),
        |i: int|
            if relax_improves(g, node, cost[node as int]->Some_0 as int, sel, cost, i) {
                Some((cost[node as int]->Some_0 + g.edge(node as int, i)) as i64)
            } else {
                cost[i]
            },
    )
}

/// The predecessor table after relaxing every outgoing edge of `node`.
pub open spec fn relaxed_path_table(
    g: Graph,
    node: usize,
    sel: Seq<bool>,
    cost: Seq<Option<i64>>,
    path: Seq<Option<usize>>,
) -> Seq<Option<usize>> {
    Seq::new(
        path.len(),
        |i: int|
            if relax_improves(g, node, cost[node as int]->Some_0 as int, sel, cost, i) {
                Some(node)
            } else {
                path[i]
            },
    )
}

/// The relation between a run state and the final result `r`: standing at
/// `curr` with the given tables, the run ends in `r`.  Once `curr` is the
/// target the result is the predecessor walk read forward; otherwise the run
/// finalizes the frontier pick, which [`lemma_min_choice_unique`] shows is
/// unique, relaxes its edges, and continues — or the frontier is empty and
/// the result is `None`.  Exactly one result satisfies the relation, so two
/// runs on equal inputs return equal results.
pub open spec fn engine_outcome_from(
    g: Graph,
    from: usize,
    to: usize,
    sel: Seq<bool>,
    cost: Seq<Option<i64>>,
    path: Seq<Option<usize>>,
    curr: usize,
    fuel: int,
    r: Option<Seq<usize>>,
) -> bool
    decreases fuel, 1int,
{
    if curr == to {
        r == Some(chain_path(path, from, to, path.len() as nat))
    } else if fuel <= 0 {
        r is None
    } else {
        engine_outcome_step(g, from, to, sel, cost, path, fuel, r)
    }
}

/// One round of the run: either no frontier pick exists and the result is
/// `None`, or the run continues from the pick with its edges relaxed.
pub open spec fn engine_outcome_step(
    g: Graph,
    from: usize,
    to: usize,
    sel: Seq<bool>,
    cost: Seq<Option<i64>>,
    path: Seq<Option<usize>>,
    fuel: int,
    r: Option<Seq<usize>>,
) -> bool
    decreases fuel, 0int,
        when fuel >= 1
{
    &&& ((forall|m: usize| !min_choice(cost, sel, m)) ==> r is None)
    &&& (forall|m: usize|
        #[trigger] min_choice(cost, sel, m) ==> engine_outcome_from(
            g,
            from,
            to,
            sel.update(m as int, true),
            relaxed_cost_table(g, m, sel.update(m as int, true), cost),
            relaxed_path_table(g, m, sel.update(m as int, true), cost, path),
            m,
            fuel - 1,
            r,
        ))
}

/// The finalized-set table a run starts from: only the source is finalized.
pub open spec fn initial_selected(g: Graph, from: usize) -> Seq<bool> {
    Seq::new(g.node_count() as nat, |i: int| i == from)
}

/// The cost table a run starts from: the source's outgoing edges.
pub open spec fn initial_cost(g: Graph, from: usize) -> Seq<Option<i64>> {
    Seq::new(
        g.node_count() as nat,
        |j: int|
            if g.edge(from as int, j) != 0 {
                Some(g.edge(from as int, j) as i64)
            } else {
                Option::<i64>::None
            },
    )
}

/// The predecessor table a run starts from: the source precedes its
/// direct neighbors.
pub open spec fn initial_path(g: Graph, from: usize) -> Seq<Option<usize>> {
    Seq::new(
        g.node_count() as nat,
        |j: int|
            if g.edge(from as int, j) != 0 {
                Some(from)
            } else {
                Option::<usize>::None
            },
    )
}

/// What [`dijkstra`] returns: the outcome of the run started on the source's
/// seeded tables, with the source already finalized.
pub open spec fn engine_outcome(g: Graph, from: usize, to: usize, r: Option<Seq<usize>>) -> bool {
    engine_outcome_from(
        g,
        from,
        to,
        initial_selected(g, from),
        initial_cost(g, from),
        initial_path(g, from),
        from,
        g.node_count() as int,
        r,
    )
}

/// Relaxes every outgoing edge of the just-finalized `node` against the
/// unfinalized nodes: each improved node gets the improved tentative cost
/// and `node` as predecessor; everything else is left as it was.
#[verifier::rlimit(60)]
#[verifier::spinoff_prover]
pub fn update_cost(
    graph: &Graph,
    node: usize,
    path: &mut Vec<Option<usize>>,
    cost: &mut Vec<Option<i64>>,
    selected: &Vec<bool>,
)
    requires
        graph.wf(),
        node < graph.node_count(),
        old(path)@.len() == graph.node_count(),
        old(cost)@.len() == graph.node_count(),
        selected@.len() == graph.node_count(),
        old(cost)@[node as int] is Some,
        0 <= old(cost)@[node as int]->Some_0,
        old(cost)@[node as int]->Some_0 + WEIGHT_LIMIT < i64::MAX,
    ensures
        final(path)@.len() == old(path)@.len(),
        final(cost)@.len() == old(cost)@.len(),
        forall|i: int|
            0 <= i < graph.node_count() ==> if relax_improves(
                *graph,
                node,
                old(cost)@[node as int]->Some_0 as int,
                selected@,
                old(cost)@,
                i,
            ) {
                &&& #[trigger] final(cost)@[i] == Some(
                    (old(cost)@[node as int]->Some_0 + graph.edge(node as int, i)) as i64,
                )
                &&& final(path)@[i] == Some(node)
            } else {
                &&& final(cost)@[i] == old(cost)@[i]
                &&& final(path)@[i] == old(path)@[i]
            },
{
    let n = graph.size();
    let node_cost: i64 = match cost[node] {
        Some(c) => c,
        None => 0,
    };
    let ghost c0 = node_cost as int;
    for i in 0..n
        invariant
            graph.wf(),
            n == graph.node_count(),
            node < n,
            selected@.len() == n,
            path@.len() == n,
            cost@.len() == n,
            node_cost == old(cost)@[node as int]->Some_0,
            c0 == node_cost as int,
            0 <= c0,
            c0 + WEIGHT_LIMIT < i64::MAX,
            forall|k: int|
                0 <= k < i ==> if relax_improves(*graph, node, c0, selected@, old(cost)@, k) {
                    &&& #[trigger] cost@[k] == Some((c0 + graph.edge(node as int, k)) as i64)
                    &&& path@[k] == Some(node)
                } else {
                    &&& cost@[k] == old(cost)@[k]
                    &&& path@[k] == old(path)@[k]
                },
            forall|k: int| i <= k < n ==> #[trigger] cost@[k] == old(cost)@[k],
            forall|k: int| i <= k < n ==> #[trigger] path@[k] == old(path)@[k],
    {
        let ghost iter_cost = cost@;
        let ghost iter_path = path@;
        let w = graph.weight(node, i);
        if w != 0 && !selected[i] {
            let candidate = node_cost + w;
            let improved: bool = match cost[i] {
                Some(c) => c > candidate,
                None => true,
            };
            proof {
                assert(cost@[i as int] == old(cost)@[i as int]);
                assert(improved == relax_improves(*graph, node, c0, selected@, old(cost)@, i as int));
                assert(candidate as int == c0 + graph.edge(node as int, i as int));
            }
            if improved {
                cost[i] = Some(candidate);
                path[i] = Some(node);
            }
        } else {
            proof {
                assert(!relax_improves(*graph, node, c0, selected@, old(cost)@, i as int));
            }
        }
        proof {
            assert forall|k: int|
                0 <= k < i + 1 implies (if relax_improves(
                *graph,
                node,
                c0,
                selected@,
                old(cost)@,
                k,
            ) {
                &&& cost@[k] == Some((c0 + graph.edge(node as int, k)) as i64)
                &&& path@[k] == Some(node)
            } else {
                &&& cost@[k] == old(cost)@[k]
                &&& path@[k] == old(path)@[k]
            }) by {
                if k < i {
                    assert(cost@[k] == iter_cost[k]);
                    assert(path@[k] == iter_path[k]);
                }
            }
        }
    }
}

/// The shape every predecessor table of a run over `g` keeps: each recorded
/// predecessor is a node of `g` and the recorded edge exists in `g`.
pub open spec fn preds_valid(g: Graph, tree: Seq<Option<usize>>) -> bool {
    forall|i: int|
        0 <= i < tree.len() ==> (#[trigger] tree[i] matches Some(u) ==> u < tree.len() && g.edge(
            u as int,
            i,
        ) != 0)
}

/// A predecessor chain in a table of the [`preds_valid`] shape induces a
/// path whose consecutive nodes are joined by edges of the graph.
pub proof fn lemma_chain_path_valid(g: Graph, tree: Seq<Option<usize>>, from: usize, cur: usize, fuel: nat)
    requires
        tree.len() == g.node_count(),
        from < tree.len(),
        cur < tree.len(),
        chain_reaches(tree, from, cur, fuel),
        preds_valid(g, tree),
    ensures
        ({
            let p = chain_path(tree, from, cur, fuel);
            &&& p.len() >= 1
            &&& p[0] == from
            &&& p.last() == cur
            &&& forall|k: int| 0 <= k < p.len() ==> (#[trigger] p[k]) < tree.len()
            &&& forall|k: int|
                0 <= k < p.len() - 1 ==> g.edge(#[trigger] p[k] as int, p[k + 1] as int) != 0
        }),
    decreases fuel,
{
    let p = chain_path(tree, from, cur, fuel);
    if cur == from {
    } else {
        let prev = tree[cur as int]->Some_0;
        lemma_chain_path_valid(g, tree, from, prev, (fuel - 1) as nat);
        let q = chain_path(tree, from, prev, (fuel - 1) as nat);
        assert(p == q.push(cur));
        assert(g.edge(prev as int, cur as int) != 0);
        assert forall|k: int| 0 <= k < p.len() - 1 implies g.edge(
            #[trigger] p[k] as int,
            p[k + 1] as int,
        ) != 0 by {
            if k < q.len() - 1 {
                assert(p[k] == q[k]);
                assert(p[k + 1] == q[k + 1]);
            } else {
                assert(p[k] == q.last());
                assert(p[k + 1] == cur);
            }
        }
    }
}

/// Somewhere along a path that starts inside `sel` and ends outside it, an
/// edge crosses out of `sel`.
proof fn lemma_exists_crossing(q: Seq<usize>, sel: Seq<bool>)
    requires
        q.len() >= 1,
        forall|k: int| 0 <= k < q.len() ==> ((#[trigger] q[k]) as int) < sel.len(),
        sel[q[0] as int],
        !sel[q.last() as int],
    ensures
        exists|k: int|
            0 <= k < q.len() - 1 && sel[(#[trigger] q[k]) as int] && !sel[q[k + 1] as int],
    decreases q.len(),
{
    if !sel[q[1] as int] {
        assert(sel[(q[0]) as int] && !sel[q[1int] as int]);
    } else {
        let q2 = q.subrange(1, q.len() as int);
        assert(q2[0] == q[1]);
        assert(q2.last() == q.last());
        assert forall|k: int| 0 <= k < q2.len() implies ((#[trigger] q2[k]) as int)
            < sel.len() by {
            assert(q2[k] == q[k + 1]);
        }
        lemma_exists_crossing(q2, sel);
        let k2 = choose|k: int|
            0 <= k < q2.len() - 1 && sel[(#[trigger] q2[k]) as int] && !sel[q2[k + 1] as int];
        assert(q[k2 + 1] == q2[k2]);
        assert(q[k2 + 2] == q2[k2 + 1]);
        assert(sel[(q[k2 + 1]) as int] && !sel[q[k2 + 1 + 1] as int]);
    }
}

/// The frontier minimum is already optimal: over nonnegative weights, any
/// path to it crosses out of the finalized set through a relaxed edge, and
/// the frontier minimum costs no more than that crossing.
proof fn lemma_min_node_optimal(
    g: Graph,
    sel: Seq<bool>,
    cost: Seq<Option<i64>>,
    from: usize,
    node: usize,
)
    requires
        nonneg(g),
        sel.len() == g.node_count(),
        cost.len() == g.node_count(),
        from < g.node_count(),
        sel[from as int],
        eligible(cost, sel, node as int),
        forall|j: int|
            #[trigger] eligible(cost, sel, j) ==> cost[node as int]->Some_0 <= cost[j]->Some_0,
        forall|v: int|
            0 <= v < g.node_count() && #[trigger] g.edge(from as int, v) != 0 && !sel[v]
                ==> cost[v] is Some && cost[v]->Some_0 <= g.edge(from as int, v),
        forall|u: int, v: int|
            0 <= u < g.node_count() && 0 <= v < g.node_count() && sel[u] && u != from
                && #[trigger] g.edge(u, v) != 0 && !sel[v] ==> cost[v] is Some
                && cost[v]->Some_0 <= cost[u]->Some_0 + g.edge(u, v),
        forall|u: int|
            0 <= u < g.node_count() && (#[trigger] sel[u]) && u != from ==> cost[u] is Some && (
            forall|q: Seq<usize>|
                is_path(g, q, from, u as usize) ==> cost[u]->Some_0 <= path_cost(g, q)),
    ensures
        forall|q: Seq<usize>|
            #[trigger] is_path(g, q, from, node) ==> cost[node as int]->Some_0 <= path_cost(
                g,
                q,
            ),
{
    let n = g.node_count();
    assert forall|q: Seq<usize>|
        #[trigger] is_path(g, q, from, node) implies cost[node as int]->Some_0 <= path_cost(
        g,
        q,
    ) by {
        lemma_exists_crossing(q, sel);
        let k = choose|k: int|
            0 <= k < q.len() - 1 && sel[(#[trigger] q[k]) as int] && !sel[q[k + 1] as int];
        let u = q[k];
        let v = q[k + 1];
        assert(g.edge(u as int, v as int) != 0);
        let pref = q.subrange(0, k + 2);
        let pref1 = q.subrange(0, k + 1);
        assert(pref.drop_last() =~= pref1);
        assert(pref[k] == u && pref[k + 1] == v);
        assert(path_cost(g, pref) == path_cost(g, pref1) + g.edge(u as int, v as int));
        assert forall|m: int| 0 <= m < pref1.len() implies ((#[trigger] pref1[m]) as int) < n by {
            assert(pref1[m] == q[m]);
        }
        if u == from {
            lemma_path_cost_nonneg(g, pref1);
            assert(cost[v as int]->Some_0 <= g.edge(from as int, v as int));
        } else {
            assert(pref1[0] == q[0]);
            assert(pref1.last() == u);
            assert forall|m: int|
                0 <= m < pref1.len() - 1 implies g.edge(
                #[trigger] pref1[m] as int,
                pref1[m + 1] as int,
            ) != 0 by {
                assert(pref1[m] == q[m]);
                assert(pref1[m + 1] == q[m + 1]);
            }
            assert(is_path(g, pref1, from, u));
            assert(cost[u as int]->Some_0 <= path_cost(g, pref1));
            assert(cost[v as int]->Some_0 <= cost[u as int]->Some_0 + g.edge(
                u as int,
                v as int,
            ));
        }
        assert(cost[v as int]->Some_0 <= path_cost(g, pref));
        assert forall|m: int| 0 <= m < q.len() implies ((#[trigger] q[m]) as int) < n by {}
        lemma_path_cost_prefix(g, q, k + 2);
        assert(eligible(cost, sel, v as int));
        assert(cost[node as int]->Some_0 <= cost[v as int]->Some_0);
    }
}

/// One relaxation round keeps every invariant of the engine's tables:
/// bounds, alignment, chains, relaxedness of finalized rows, and the
/// optimality of every finalized cost.
#[verifier::rlimit(100)]
#[verifier::spinoff_prover]
proof fn lemma_dijkstra_maintain(
    g: Graph,
    from: usize,
    node: usize,
    pre_sel: Seq<bool>,
    sel2: Seq<bool>,
    pre_cost: Seq<Option<i64>>,
    pre_path: Seq<Option<usize>>,
    ncost: Seq<Option<i64>>,
    npath: Seq<Option<usize>>,
    old_count: int,
)
    requires
        g.wf(),
        nonneg(g),
        pre_sel.len() == g.node_count(),
        pre_cost.len() == g.node_count(),
        pre_path.len() == g.node_count(),
        ncost.len() == g.node_count(),
        npath.len() == g.node_count(),
        from < g.node_count(),
        node < g.node_count(),
        node != from,
        pre_sel[from as int],
        !pre_sel[node as int],
        sel2 == pre_sel.update(node as int, true),
        old_count == count_true(pre_sel),
        count_true(sel2) == old_count + 1,
        0 <= old_count <= g.node_count(),
        pre_cost[node as int] is Some,
        forall|i: int|
            0 <= i < g.node_count() ==> (#[trigger] pre_cost[i] matches Some(c) ==> 0 <= c
                <= old_count * WEIGHT_LIMIT),
        forall|i: int|
            0 <= i < g.node_count() ==> (#[trigger] pre_path[i] matches Some(u) ==> u
                < g.node_count() && g.edge(u as int, i) != 0 && pre_sel[u as int]),
        forall|i: int|
            0 <= i < g.node_count() ==> ((#[trigger] pre_cost[i]) is Some <==> pre_path[i]
                is Some),
        forall|i: int|
            0 <= i < g.node_count() && (#[trigger] pre_sel[i]) && i != from ==> pre_cost[i]
                is Some,
        forall|i: int|
            0 <= i < g.node_count() && (#[trigger] pre_path[i]) is Some ==> chain_reaches(
                pre_path,
                from,
                i as usize,
                old_count as nat,
            ),
        forall|v: int|
            0 <= v < g.node_count() && v != from && (#[trigger] pre_cost[v]) is Some
                ==> path_cost(g, chain_path(pre_path, from, v as usize, old_count as nat))
                == pre_cost[v]->Some_0,
        forall|v: int|
            0 <= v < g.node_count() && #[trigger] g.edge(from as int, v) != 0 && !pre_sel[v]
                ==> pre_cost[v] is Some && pre_cost[v]->Some_0 <= g.edge(from as int, v),
        forall|u: int, v: int|
            0 <= u < g.node_count() && 0 <= v < g.node_count() && pre_sel[u] && u != from
                && #[trigger] g.edge(u, v) != 0 && !pre_sel[v] ==> pre_cost[v] is Some
                && pre_cost[v]->Some_0 <= pre_cost[u]->Some_0 + g.edge(u, v),
        forall|u: int|
            0 <= u < g.node_count() && (#[trigger] pre_sel[u]) && u != from ==> pre_cost[u]
                is Some && (forall|q: Seq<usize>|
                is_path(g, q, from, u as usize) ==> pre_cost[u]->Some_0 <= path_cost(g, q)),
        forall|q: Seq<usize>|
            #[trigger] is_path(g, q, from, node) ==> pre_cost[node as int]->Some_0 <= path_cost(
                g,
                q,
            ),
        forall|i: int|
            0 <= i < g.node_count() ==> if relax_improves(
                g,
                node,
                pre_cost[node as int]->Some_0 as int,
                sel2,
                pre_cost,
                i,
            ) {
                &&& #[trigger] ncost[i] == Some(
                    (pre_cost[node as int]->Some_0 + g.edge(node as int, i)) as i64,
                )
                &&& npath[i] == Some(node)
            } else {
                &&& ncost[i] == pre_cost[i]
                &&& npath[i] == pre_path[i]
            },
    ensures
        forall|i: int|
            0 <= i < g.node_count() ==> (#[trigger] ncost[i] matches Some(c) ==> 0 <= c <= (
            old_count + 1) * WEIGHT_LIMIT),
        forall|i: int|
            0 <= i < g.node_count() ==> (#[trigger] npath[i] matches Some(u) ==> u
                < g.node_count() && g.edge(u as int, i) != 0 && sel2[u as int]),
        forall|i: int|
            0 <= i < g.node_count() ==> ((#[trigger] ncost[i]) is Some <==> npath[i] is Some),
        forall|i: int|
            0 <= i < g.node_count() && (#[trigger] sel2[i]) && i != from ==> ncost[i] is Some,
        forall|i: int|
            0 <= i < g.node_count() && (#[trigger] npath[i]) is Some ==> chain_reaches(
                npath,
                from,
                i as usize,
                (old_count + 1) as nat,
            ),
        forall|v: int|
            0 <= v < g.node_count() && v != from && (#[trigger] ncost[v]) is Some ==> path_cost(
                g,
                chain_path(npath, from, v as usize, (old_count + 1) as nat),
            ) == ncost[v]->Some_0,
        forall|v: int|
            0 <= v < g.node_count() && #[trigger] g.edge(from as int, v) != 0 && !sel2[v]
                ==> ncost[v] is Some && ncost[v]->Some_0 <= g.edge(from as int, v),
        forall|u: int, v: int|
            0 <= u < g.node_count() && 0 <= v < g.node_count() && sel2[u] && u != from
                && #[trigger] g.edge(u, v) != 0 && !sel2[v] ==> ncost[v] is Some
                && ncost[v]->Some_0 <= ncost[u]->Some_0 + g.edge(u, v),
        forall|u: int|
            0 <= u < g.node_count() && (#[trigger] sel2[u]) && u != from ==> ncost[u] is Some
                && (forall|q: Seq<usize>|
                is_path(g, q, from, u as usize) ==> ncost[u]->Some_0 <= path_cost(g, q)),
{
    let n = g.node_count();
    g.lemma_wf_bounds();
    let new_count = count_true(sel2);
    assert(new_count == old_count + 1);
    let c0 = pre_cost[node as int]->Some_0 as int;
    assert forall|i: int|
        0 <= i < n implies (#[trigger] ncost[i] matches Some(c) ==> 0 <= c
        <= new_count * WEIGHT_LIMIT) by {
        if relax_improves(g, node, c0, sel2, pre_cost, i) {
            assert(g.edge(node as int, i) <= WEIGHT_LIMIT);
            assert(c0 <= old_count * WEIGHT_LIMIT);
        } else {
            assert(ncost[i] == pre_cost[i]);
        }
    }
    // each recorded predecessor is finalized and its edge exists
    assert forall|i: int|
        0 <= i < n implies (#[trigger] npath[i] matches Some(u) ==> u < n
        && g.edge(u as int, i) != 0 && sel2[u as int]) by {
        assert(ncost[i] is Some || ncost[i] is None);
        if relax_improves(g, node, c0, sel2, pre_cost, i) {
            assert(npath[i] == Some(node));
        } else {
            assert(npath[i] == pre_path[i]);
        }
    }
    // cost and predecessor tables stay aligned
    assert forall|i: int|
        0 <= i < n implies ((#[trigger] ncost[i]) is Some <==> npath[i]
        is Some) by {
        if !relax_improves(g, node, c0, sel2, pre_cost, i) {
            assert(ncost[i] == pre_cost[i]);
            assert(npath[i] == pre_path[i]);
        }
    }
    // every finalized node but the source keeps a known cost
    assert forall|i: int|
        0 <= i < n && (#[trigger] sel2[i]) && i != from implies ncost[i]
        is Some by {
        if relax_improves(g, node, c0, sel2, pre_cost, i) {
        } else {
            assert(ncost[i] == pre_cost[i]);
        }
    }
    // the frame for predecessor chains: finalized entries are untouched
    assert forall|x: int|
        0 <= x < n implies (#[trigger] pre_path[x] matches Some(w) ==> w < n
        && sel2[w as int]) by {}
    assert forall|x: int| 0 <= x < n && sel2[x] implies npath[x] == pre_path[x]
        && ncost[x] == pre_cost[x] by {
        assert(ncost[x] is Some || ncost[x] is None);
        if relax_improves(g, node, c0, sel2, pre_cost, x) {
            assert(!sel2[x]);
        } else {
            assert(npath[x] == pre_path[x]);
        }
    }
    // every known node still chains back to the source
    assert forall|j: int|
        0 <= j < n && (#[trigger] npath[j]) is Some implies chain_reaches(
        npath,
        from,
        j as usize,
        new_count as nat,
    ) by {
        assert(ncost[j] is Some || ncost[j] is None);
        if relax_improves(g, node, c0, sel2, pre_cost, j) {
            assert(pre_cost[node as int] is Some);
            assert(pre_path[node as int] is Some);
            assert(chain_reaches(pre_path, from, node, old_count as nat));
            lemma_chain_frame(
                pre_path,
                npath,
                sel2,
                from,
                node,
                old_count as nat,
            );
            assert(npath[j] == Some(node));
            assert(!sel2[j]);
            assert(j != from);
            assert(chain_reaches(npath, from, j as usize, new_count as nat));
        } else {
            assert(npath[j] == pre_path[j]);
            assert(chain_reaches(pre_path, from, j as usize, old_count as nat));
            lemma_chain_frame(
                pre_path,
                npath,
                sel2,
                from,
                j as usize,
                old_count as nat,
            );
            lemma_chain_mono(
                npath,
                from,
                j as usize,
                old_count as nat,
                new_count as nat,
            );
        }
    }
    // every known cost is still the weight of its chain
    assert forall|v: int|
        0 <= v < n && v != from && (#[trigger] ncost[v]) is Some implies path_cost(
        g,
        chain_path(npath, from, v as usize, new_count as nat),
    ) == ncost[v]->Some_0 by {
        if relax_improves(g, node, c0, sel2, pre_cost, v) {
            assert(chain_reaches(pre_path, from, node, old_count as nat));
            lemma_chain_frame(
                pre_path,
                npath,
                sel2,
                from,
                node,
                old_count as nat,
            );
            crate::utils::lemma_chain_path_simple(
                pre_path,
                from,
                node,
                old_count as nat,
            );
            let cn = chain_path(pre_path, from, node, old_count as nat);
            assert(chain_path(npath, from, node, old_count as nat) == cn);
            assert(v != from);
            assert(npath[v] == Some(node));
            assert(chain_path(npath, from, v as usize, new_count as nat)
                == chain_path(npath, from, node, old_count as nat).push(
                v as usize,
            ));
            lemma_path_cost_push(g, cn, v as usize);
            assert(cn.last() == node);
            assert(path_cost(g, cn) == c0);
            assert(ncost[v] == Some((c0 + g.edge(node as int, v)) as i64));
        } else {
            assert(ncost[v] == pre_cost[v]);
            assert(npath[v] == pre_path[v]);
            assert(chain_reaches(pre_path, from, v as usize, old_count as nat));
            lemma_chain_frame(
                pre_path,
                npath,
                sel2,
                from,
                v as usize,
                old_count as nat,
            );
            crate::utils::lemma_chain_path_fuel_mono(
                npath,
                from,
                v as usize,
                old_count as nat,
                new_count as nat,
            );
        }
    }
    // the source's row stays relaxed
    assert forall|v: int|
        0 <= v < n && #[trigger] g.edge(from as int, v) != 0
            && !sel2[v] implies ncost[v] is Some && ncost[v]->Some_0
        <= g.edge(from as int, v) by {
        assert(!pre_sel[v]);
        assert(pre_cost[v] is Some);
        if relax_improves(g, node, c0, sel2, pre_cost, v) {
            assert(c0 + g.edge(node as int, v) < pre_cost[v]->Some_0);
        } else {
            assert(ncost[v] == pre_cost[v]);
        }
    }
    // every finalized row stays relaxed
    assert forall|u: int, v: int|
        0 <= u < n && 0 <= v < n && sel2[u] && u != from && #[trigger] g.edge(
            u,
            v,
        ) != 0 && !sel2[v] implies ncost[v] is Some && ncost[v]->Some_0 <= ncost[
        u
    ]->Some_0 + g.edge(u, v) by {
        assert(ncost[u] == pre_cost[u]);
        if u == node {
            if relax_improves(g, node, c0, sel2, pre_cost, v) {
            } else {
                assert(ncost[v] == pre_cost[v]);
                assert(pre_cost[v] is Some);
            }
        } else {
            assert(pre_sel[u]);
            assert(!pre_sel[v]);
            assert(pre_cost[v] is Some);
            if relax_improves(g, node, c0, sel2, pre_cost, v) {
                assert(c0 + g.edge(node as int, v) < pre_cost[v]->Some_0);
            } else {
                assert(ncost[v] == pre_cost[v]);
            }
        }
    }
    // every finalized cost still beats every path to its node
    assert forall|u: int|
        0 <= u < n && (#[trigger] sel2[u]) && u != from implies ncost[u] is Some
        && (forall|q: Seq<usize>|
        is_path(g, q, from, u as usize) ==> ncost[u]->Some_0 <= path_cost(
            g,
            q,
        )) by {
        assert(ncost[u] == pre_cost[u]);
        if u != node {
            assert(pre_sel[u]);
        }
    }
}

/// Single-source shortest path over nonnegative weights.
///
/// Repeatedly finalizes the cheapest frontier node (ties to the lowest
/// index) and relaxes its outgoing edges, until `to` is finalized; then the
/// path is read back out of the predecessor table.  Success is returned
/// exactly when `to` is reachable from `from` — in particular the
/// degenerate query `from == to` returns the single-node path `[from]` —
/// and the result is then a path of `g` from `from` to `to` whose total
/// weight no path between the two endpoints beats.  The whole run is pinned
/// by [`engine_outcome`]: equal inputs give equal results, ties and all.
#[verifier::rlimit(100)]
#[verifier::spinoff_prover]
pub fn dijkstra(graph: &Graph, from: usize, to: usize) -> (r: Option<Vec<usize>>)
    requires
        graph.wf(),
        from < graph.node_count(),
        to < graph.node_count(),
        nonneg(*graph),
    ensures
        r is Some <==> reachable(*graph, from, to),
        engine_outcome(
            *graph,
            from,
            to,
            match r {
                Some(p) => Some(p@),
                None => None::<Seq<usize>>,
            },
        ),
        from == to ==> (r matches Some(p) && p@ == seq![from]),
        r matches Some(p) ==> (forall|q: Seq<usize>|
            is_path(*graph, q, from, to) ==> path_cost(*graph, p@) <= path_cost(*graph, q)),
        r matches Some(p) ==> {
            &&& p@.len() >= 1
            &&& p@[0] == from
            &&& p@.last() == to
            &&& p@.no_duplicates()
            &&& forall|k: int| 0 <= k < p@.len() ==> (#[trigger] p@[k]) < graph.node_count()
            &&& forall|k: int|
                0 <= k < p@.len() - 1 ==> graph.edge(#[trigger] p@[k] as int, p@[k + 1] as int)
                    != 0
        },
{
    let n = graph.size();
    proof {
        graph.lemma_wf_bounds();
    }
    let mut selected = nodes(graph, from);
    let (mut path, mut cost) = initialize(graph, from);
    proof {
        assert(count_true(selected@) == 1);
        assert forall|i: int|
            0 <= i < n implies (#[trigger] cost@[i] matches Some(c) ==> 0 <= c <= count_true(
            selected@,
        ) * WEIGHT_LIMIT) by {
            if graph.edge(from as int, i) != 0 {
                assert(cost@[i] == Some(graph.edge(from as int, i) as i64));
                assert(0 <= graph.edge(from as int, i) <= WEIGHT_LIMIT);
            } else {
                assert(cost@[i] is None);
            }
        }
        assert forall|i: int|
            0 <= i < n implies (#[trigger] path@[i] matches Some(u) ==> u < path@.len()
            && graph.edge(u as int, i) != 0 && selected@[u as int]) by {
            if graph.edge(from as int, i) != 0 {
                assert(path@[i] == Some(from));
            } else {
                assert(path@[i] is None);
            }
        }
        assert forall|i: int|
            0 <= i < n implies ((#[trigger] cost@[i]) is Some <==> path@[i] is Some) by {
            if graph.edge(from as int, i) != 0 {
                assert(cost@[i] is Some && path@[i] is Some);
            } else {
                assert(cost@[i] is None && path@[i] is None);
            }
        }
        assert forall|i: int|
            0 <= i < n && (#[trigger] path@[i]) is Some implies chain_reaches(
            path@,
            from,
            i as usize,
            count_true(selected@) as nat,
        ) by {
            assert(path@[i] == Some(from));
            if i != from {
                assert(chain_reaches(path@, from, from, 0));
            }
        }
        assert forall|v: int|
            0 <= v < n && v != from && (#[trigger] cost@[v]) is Some implies path_cost(
            *graph,
            chain_path(path@, from, v as usize, count_true(selected@) as nat),
        ) == cost@[v]->Some_0 by {
            assert(path@[v] == Some(from));
            assert(chain_path(path@, from, v as usize, 1) == chain_path(
                path@,
                from,
                from,
                0,
            ).push(v as usize));
            assert(chain_path(path@, from, from, 0) == seq![from]);
            lemma_path_cost_push(*graph, seq![from], v as usize);
        }
        assert(selected@ =~= initial_selected(*graph, from));
        assert(cost@ =~= initial_cost(*graph, from));
        assert(path@ =~= initial_path(*graph, from));
        assert(n + 1 - count_true(selected@) == n as int);
    }
    let mut curr = from;
    while curr != to
        invariant
            graph.wf(),
            nonneg(*graph),
            n == graph.node_count(),
            from < n,
            to < n,
            curr < n,
            from == to ==> curr == to,
            selected@.len() == n,
            path@.len() == n,
            cost@.len() == n,
            0 <= count_true(selected@) <= n,
            selected@[from as int],
            selected@[curr as int],
            selected@[to as int] ==> curr == to,
            forall|i: int|
                0 <= i < n ==> (#[trigger] cost@[i] matches Some(c) ==> 0 <= c <= count_true(
                    selected@,
                ) * WEIGHT_LIMIT),
            forall|i: int|
                0 <= i < n ==> (#[trigger] path@[i] matches Some(u) ==> u < n && graph.edge(
                    u as int,
                    i,
                ) != 0 && selected@[u as int]),
            forall|i: int| 0 <= i < n ==> ((#[trigger] cost@[i]) is Some <==> path@[i] is Some),
            forall|i: int|
                0 <= i < n && (#[trigger] selected@[i]) && i != from ==> cost@[i] is Some,
            forall|i: int|
                0 <= i < n && (#[trigger] path@[i]) is Some ==> chain_reaches(
                    path@,
                    from,
                    i as usize,
                    count_true(selected@) as nat,
                ),
            forall|v: int|
                0 <= v < n && v != from && (#[trigger] cost@[v]) is Some ==> path_cost(
                    *graph,
                    chain_path(path@, from, v as usize, count_true(selected@) as nat),
                ) == cost@[v]->Some_0,
            forall|v: int|
                0 <= v < n && #[trigger] graph.edge(from as int, v) != 0 && !selected@[v]
                    ==> cost@[v] is Some && cost@[v]->Some_0 <= graph.edge(from as int, v),
            forall|u: int, v: int|
                0 <= u < n && 0 <= v < n && selected@[u] && u != from && #[trigger] graph.edge(
                    u,
                    v,
                ) != 0 && !selected@[v] ==> cost@[v] is Some && cost@[v]->Some_0 <= cost@[
                    u
                ]->Some_0 + graph.edge(u, v),
            forall|u: int|
                0 <= u < n && (#[trigger] selected@[u]) && u != from ==> cost@[u] is Some && (
                forall|q: Seq<usize>|
                    is_path(*graph, q, from, u as usize) ==> cost@[u]->Some_0 <= path_cost(
                        *graph,
                        q,
                    )),
            forall|rr: Option<Seq<usize>>|
                engine_outcome_from(
                    *graph,
                    from,
                    to,
                    selected@,
                    cost@,
                    path@,
                    curr,
                    n + 1 - count_true(selected@),
                    rr,
                ) ==> #[trigger] engine_outcome(*graph, from, to, rr),
        decreases n - count_true(selected@),
    {
        match find_min_cost(&cost, &selected) {
            Some(node) => {
                proof {
                    graph.lemma_wf_bounds();
                    lemma_count_true_update(selected@, node as int);
                    lemma_count_true_le(selected@.update(node as int, true));
                    assert(count_true(selected@) * WEIGHT_LIMIT <= n * WEIGHT_LIMIT);
                    assert(node != from);
                    lemma_min_node_optimal(*graph, selected@, cost@, from, node);
                }
                let ghost old_count = count_true(selected@);
                let ghost pre_sel = selected@;
                selected[node] = true;
                let ghost pre_cost = cost@;
                let ghost pre_path = path@;
                update_cost(graph, node, &mut path, &mut cost, &selected);
                proof {
                    lemma_dijkstra_maintain(
                        *graph,
                        from,
                        node,
                        pre_sel,
                        selected@,
                        pre_cost,
                        pre_path,
                        cost@,
                        path@,
                        old_count,
                    );
                    let sel2 = selected@;
                    let fuel_pre = n + 1 - old_count;
                    assert(sel2 == pre_sel.update(node as int, true));
                    let c0 = pre_cost[node as int]->Some_0 as int;
                    assert forall|i: int|
                        0 <= i < n implies cost@[i] == relaxed_cost_table(
                        *graph,
                        node,
                        sel2,
                        pre_cost,
                    )[i] by {
                        assert(cost@[i] is Some || cost@[i] is None);
                    }
                    assert(cost@ =~= relaxed_cost_table(*graph, node, sel2, pre_cost));
                    assert forall|i: int|
                        0 <= i < n implies path@[i] == relaxed_path_table(
                        *graph,
                        node,
                        sel2,
                        pre_cost,
                        pre_path,
                    )[i] by {
                        assert(cost@[i] is Some || cost@[i] is None);
                    }
                    assert(path@ =~= relaxed_path_table(*graph, node, sel2, pre_cost, pre_path));
                    assert(min_choice(pre_cost, pre_sel, node));
                    assert forall|rr: Option<Seq<usize>>|
                        engine_outcome_from(
                            *graph,
                            from,
                            to,
                            sel2,
                            cost@,
                            path@,
                            node,
                            fuel_pre - 1,
                            rr,
                        ) implies #[trigger] engine_outcome(*graph, from, to, rr) by {
                        assert(engine_outcome_step(
                            *graph,
                            from,
                            to,
                            pre_sel,
                            pre_cost,
                            pre_path,
                            fuel_pre,
                            rr,
                        )) by {
                            assert forall|mm: usize|
                                #[trigger] min_choice(pre_cost, pre_sel, mm)
                                    implies engine_outcome_from(
                                    *graph,
                                    from,
                                    to,
                                    pre_sel.update(mm as int, true),
                                    relaxed_cost_table(
                                        *graph,
                                        mm,
                                        pre_sel.update(mm as int, true),
                                        pre_cost,
                                    ),
                                    relaxed_path_table(
                                        *graph,
                                        mm,
                                        pre_sel.update(mm as int, true),
                                        pre_cost,
                                        pre_path,
                                    ),
                                    mm,
                                    fuel_pre - 1,
                                    rr,
                                ) by {
                                lemma_min_choice_unique(pre_cost, pre_sel, mm, node);
                            }
                        }
                        assert(fuel_pre >= 1);
                        assert(engine_outcome_from(
                            *graph,
                            from,
                            to,
                            pre_sel,
                            pre_cost,
                            pre_path,
                            curr,
                            fuel_pre,
                            rr,
                        ));
                    }
                }
                curr = node;
            },
            None => {
                proof {
                    assert forall|u: int, v: int|
                        0 <= u < n && 0 <= v < n && selected@[u] && #[trigger] graph.edge(u, v)
                            != 0 implies selected@[v] by {
                        if !selected@[v] {
                            assert(cost@[v] is Some);
                            assert(!eligible(cost@, selected@, v));
                            assert(false);
                        }
                    }
                    if reachable(*graph, from, to) {
                        let p = choose|p: Seq<usize>| is_path(*graph, p, from, to);
                        lemma_path_in_closed_set(*graph, p, from, to, selected@);
                        assert(false);
                    }
                    let fuel = n + 1 - count_true(selected@);
                    assert(engine_outcome_from(
                        *graph,
                        from,
                        to,
                        selected@,
                        cost@,
                        path@,
                        curr,
                        fuel,
                        None::<Seq<usize>>,
                    )) by {
                        if fuel >= 1 {
                            assert(engine_outcome_step(
                                *graph,
                                from,
                                to,
                                selected@,
                                cost@,
                                path@,
                                fuel,
                                None::<Seq<usize>>,
                            )) by {
                                assert forall|mm: usize|
                                    !min_choice(cost@, selected@, mm) by {
                                    assert(!eligible(cost@, selected@, mm as int));
                                }
                            }
                        }
                    }
                }
                return None;
            },
        }
    }
    proof {
        if from != to {
            assert(selected@[to as int]);
            assert(cost@[to as int] is Some);
            assert(path@[to as int] is Some);
            assert(chain_reaches(path@, from, to, count_true(selected@) as nat));
            lemma_chain_mono(path@, from, to, count_true(selected@) as nat, n as nat);
            crate::utils::lemma_chain_path_fuel_mono(
                path@,
                from,
                to,
                count_true(selected@) as nat,
                n as nat,
            );
        }
    }
    let r = build_path(&path, from, to);
    proof {
        assert(chain_reaches(path@, from, to, path@.len() as nat));
        lemma_chain_path_valid(*graph, path@, from, to, path@.len() as nat);
        crate::utils::lemma_chain_path_simple(path@, from, to, path@.len() as nat);
        let p = chain_path(path@, from, to, path@.len() as nat);
        assert(is_path(*graph, p, from, to));
        assert(reachable(*graph, from, to));
        assert forall|q: Seq<usize>|
            is_path(*graph, q, from, to) implies path_cost(*graph, p) <= path_cost(
            *graph,
            q,
        ) by {
            if from == to {
                assert(p == seq![from]);
                assert(path_cost(*graph, p) == 0);
                assert forall|m: int| 0 <= m < q.len() implies ((#[trigger] q[m]) as int)
                    < n by {}
                lemma_path_cost_nonneg(*graph, q);
            } else {
                assert(path_cost(*graph, p) == cost@[to as int]->Some_0);
                assert(cost@[to as int]->Some_0 <= path_cost(*graph, q));
            }
        }
        assert(engine_outcome_from(
            *graph,
            from,
            to,
            selected@,
            cost@,
            path@,
            to,
            n + 1 - count_true(selected@),
            Some(p),
        ));
    }
    r
}

/// A path of `g` cannot leave a node set that is closed under the edges of
/// `g`: if it starts inside, it ends inside.
proof fn lemma_path_in_closed_set(g: Graph, p: Seq<usize>, a: usize, b: usize, sel: Seq<bool>)
    requires
        is_path(g, p, a, b),
        sel.len() == g.node_count(),
        sel[a as int],
        forall|u: int, v: int|
            0 <= u < sel.len() && 0 <= v < sel.len() && sel[u] && #[trigger] g.edge(u, v) != 0
                ==> sel[v],
    ensures
        sel[b as int],
    decreases p.len(),
{
    if p.len() == 1 {
        assert(b == a);
    } else {
        let q = p.subrange(1, p.len() as int);
        assert(g.edge(p[0] as int, p[1] as int) != 0);
        assert(sel[p[1] as int]);
        assert(is_path(g, q, p[1], b)) by {
            assert(q[0] == p[1]);
            assert(q.last() == p.last());
            assert forall|k: int|
                0 <= k < q.len() implies ((#[trigger] q[k]) as int) < g.node_count() by {
                assert(q[k] == p[k + 1]);
            }
            assert forall|k: int|
                0 <= k < q.len() - 1 implies g.edge(#[trigger] q[k] as int, q[k + 1] as int)
                != 0 by {
                assert(q[k] == p[k + 1]);
                assert(q[k + 1] == p[k + 2]);
            }
        }
        lemma_path_in_closed_set(g, q, p[1], b, sel);
    }
}

} // verus!
