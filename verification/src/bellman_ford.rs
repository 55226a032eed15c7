//! Full-relaxation single-source shortest-path engine.
//!
//! Performs exactly `N - 1` passes over every nonzero matrix cell, relaxing
//! each edge against the tentative-cost table.  Negative weights are
//! tolerated (not negative cycles: a reachable negative cycle yields an
//! unconverged, though still well-defined, result — a documented limitation
//! of the fixed iteration count).  On nonnegative weights success is owed:
//! the engine returns a path whenever one exists.

use crate::dijkstra::preds_valid;
use crate::graph::is_path;
use crate::graph::lemma_short_path;
use crate::graph::nonneg;
use crate::graph::reachable;
use crate::graph::Graph;
use crate::graph::WEIGHT_LIMIT;
use crate::utils::build_path;
use crate::utils::chain_path;
use crate::utils::chain_reaches;
use vstd::prelude::*;

verus! {

/// The full-relaxation engine's starting tables: the source has cost `0`,
/// every other node is unknown, and no predecessors are recorded.
pub fn initialize(graph: &Graph, from: usize) -> (r: (Vec<Option<i64>>, Vec<Option<usize>>))
    requires
        from < graph.node_count(),
    ensures
        r.0@.len() == graph.node_count(),
        r.1@.len() == graph.node_count(),
        forall|j: int|
            0 <= j < graph.node_count() ==> r.0@[j] == (if j == from {
                Some(0i64)
            } else {
                Option::<i64>::None
            }),
        forall|j: int| 0 <= j < graph.node_count() ==> r.1@[j] is None,
{
    let n = graph.size();
    let mut cost: Vec<Option<i64>> = Vec::new();
    let mut path: Vec<Option<usize>> = Vec::new();
    for j in 0..n
        invariant
            n == graph.node_count(),
            from < n,
            cost@.len() == j,
            path@.len() == j,
            forall|k: int|
                0 <= k < j ==> cost@[k] == (if k == from {
                    Some(0i64)
                } else {
                    Option::<i64>::None
                }),
            forall|k: int| 0 <= k < j ==> path@[k] is None,
    {
        if j == from {
            cost.push(Some(0));
        } else {
            cost.push(None);
        }
        path.push(None);
    }
    (cost, path)
}

/// The shape the tables keep on a nonnegative-weight run: the source holds
/// cost zero, every known cost is nonnegative, a known cost away from the
/// source comes with a predecessor, and every predecessor link carries at
/// least its edge weight as cost difference.
pub open spec fn bf_tables_ok(
    g: Graph,
    from: usize,
    cost: Seq<Option<i64>>,
    path: Seq<Option<usize>>,
) -> bool {
    &&& cost[from as int] == Some(0i64)
    &&& forall|k: int| 0 <= k < cost.len() ==> ((#[trigger] cost[k]) matches Some(c) ==> c >= 0)
    &&& forall|k: int|
        0 <= k < cost.len() && (#[trigger] cost[k]) is Some && k != from ==> path[k] is Some
    &&& forall|k: int|
        0 <= k < path.len() ==> ((#[trigger] path[k]) matches Some(i) ==> cost[k] is Some
            && cost[i as int] is Some && cost[i as int]->Some_0 + g.edge(i as int, k)
            <= cost[k]->Some_0)
}

/// In tables of the [`bf_tables_ok`] shape over nonnegative weights, every
/// predecessor link loses at least one unit of cost, so the walk back from
/// any known node reaches the source within its own cost.
proof fn lemma_ranked_chain(
    g: Graph,
    cost: Seq<Option<i64>>,
    path: Seq<Option<usize>>,
    from: usize,
    j: usize,
    bound: nat,
)
    requires
        cost.len() == g.node_count(),
        path.len() == g.node_count(),
        from < g.node_count(),
        j < g.node_count(),
        nonneg(g),
        preds_valid(g, path),
        bf_tables_ok(g, from, cost, path),
        cost[j as int] is Some,
        cost[j as int]->Some_0 <= bound,
    ensures
        chain_reaches(path, from, j, bound),
        crate::graph::path_cost(g, chain_path(path, from, j, bound)) <= cost[j as int]->Some_0,
    decreases bound,
{
    if j != from {
        assert(path[j as int] is Some);
        let i = path[j as int]->Some_0;
        assert(g.edge(i as int, j as int) != 0);
        assert(g.edge(i as int, j as int) >= 1);
        assert(cost[i as int]->Some_0 >= 0);
        assert(cost[i as int]->Some_0 <= cost[j as int]->Some_0 - 1);
        lemma_ranked_chain(g, cost, path, from, i, (bound - 1) as nat);
        let ci = chain_path(path, from, i, (bound - 1) as nat);
        crate::utils::lemma_chain_path_simple(path, from, i, (bound - 1) as nat);
        assert(chain_path(path, from, j, bound) == ci.push(j));
        crate::graph::lemma_path_cost_push(g, ci, j);
        assert(ci.last() == i);
    } else {
        assert(cost[from as int] == Some(0i64));
    }
}

/// One relaxation of the cell `(i, j)`: when `i`'s cost is known and
/// improves on `j`'s, `j` takes the improved cost and `i` as predecessor.
pub open spec fn relax_cell(
    g: Graph,
    cost: Seq<Option<i64>>,
    path: Seq<Option<usize>>,
    i: int,
    j: int,
) -> (Seq<Option<i64>>, Seq<Option<usize>>) {
    if g.edge(i, j) != 0 && cost[i] is Some && (cost[j] is None || cost[i]->Some_0 + g.edge(i, j)
        < cost[j]->Some_0) {
        (
            cost.update(j, Some((cost[i]->Some_0 + g.edge(i, j)) as i64)),
            path.update(j, Some(i as usize)),
        )
    } else {
        (cost, path)
    }
}

/// The tables after relaxing the first `j` cells of row `i` in order.
pub open spec fn scan_row(
    g: Graph,
    cost: Seq<Option<i64>>,
    path: Seq<Option<usize>>,
    i: int,
    j: int,
) -> (Seq<Option<i64>>, Seq<Option<usize>>)
    decreases j,
{
    if j <= 0 {
        (cost, path)
    } else {
        let t = scan_row(g, cost, path, i, j - 1);
        relax_cell(g, t.0, t.1, i, j - 1)
    }
}

/// The tables after relaxing the first `i` full rows in order.
pub open spec fn scan_rows(
    g: Graph,
    cost: Seq<Option<i64>>,
    path: Seq<Option<usize>>,
    i: int,
) -> (Seq<Option<i64>>, Seq<Option<usize>>)
    decreases i,
{
    if i <= 0 {
        (cost, path)
    } else {
        let t = scan_rows(g, cost, path, i - 1);
        scan_row(g, t.0, t.1, i - 1, g.node_count())
    }
}

/// The tables after the given number of full relaxation rounds.
pub open spec fn relax_rounds(
    g: Graph,
    cost: Seq<Option<i64>>,
    path: Seq<Option<usize>>,
    rounds: int,
) -> (Seq<Option<i64>>, Seq<Option<usize>>)
    decreases rounds,
{
    if rounds <= 0 {
        (cost, path)
    } else {
        let t = relax_rounds(g, cost, path, rounds - 1);
        scan_rows(g, t.0, t.1, g.node_count())
    }
}

/// The cost table the engine starts from: zero at the source, unknown
/// elsewhere.
pub open spec fn initial_bf_cost(g: Graph, from: usize) -> Seq<Option<i64>> {
    Seq::new(
        g.node_count() as nat,
        |j: int|
            if j == from {
                Some(0i64)
            } else {
                Option::<i64>::None
            },
    )
}

/// The predecessor table the engine starts from: empty.
pub open spec fn initial_bf_path(g: Graph) -> Seq<Option<usize>> {
    Seq::new(g.node_count() as nat, |j: int| Option::<usize>::None)
}

/// What [`bellman_ford`] returns, as a function of the graph and the
/// endpoints alone: `N - 1` full relaxation rounds in scan order, then the
/// predecessor walk read forward — or `None` when that walk never reaches
/// the source.  The rounds and the scan are deterministic, so two calls on
/// equal inputs return equal results.
pub open spec fn relaxation_outcome(g: Graph, from: usize, to: usize, r: Option<Seq<usize>>) -> bool {
    let t = relax_rounds(g, initial_bf_cost(g, from), initial_bf_path(g), g.node_count() - 1);
    if chain_reaches(t.1, from, to, t.1.len() as nat) {
        r == Some(chain_path(t.1, from, to, t.1.len() as nat))
    } else {
        r is None
    }
}

/// Single-source shortest path by `N - 1` rounds of full edge relaxation.
///
/// Each round scans every nonzero cell `(i, j)` and relaxes it: when `i`'s
/// cost is known and improves on `j`'s, `j` takes the improved cost and `i`
/// as predecessor.  All rounds complete before the path is read back out of
/// the predecessor table; `None` means the chain from `to` never reached
/// `from`.  The degenerate query `from == to` returns the single-node path
/// `[from]`.  Success always comes with evidence — the result is a path of
/// `g` — and on nonnegative weights success is owed and the returned path's
/// total weight beats every path between the endpoints.  The whole run is
/// pinned by [`relaxation_outcome`]: equal inputs give equal results, on
/// negative weights included.  (Near a reachable negative cycle the table
/// does not converge, so no success or minimality is promised there; the
/// fixed iteration count is the documented limit.)
#[verifier::rlimit(100)]
#[verifier::spinoff_prover]
pub fn bellman_ford(graph: &Graph, from: usize, to: usize) -> (r: Option<Vec<usize>>)
    requires
        graph.wf(),
        from < graph.node_count(),
        to < graph.node_count(),
    ensures
        relaxation_outcome(
            *graph,
            from,
            to,
            match r {
                Some(p) => Some(p@),
                None => None::<Seq<usize>>,
            },
        ),
        r is Some ==> reachable(*graph, from, to),
        nonneg(*graph) && reachable(*graph, from, to) ==> r is Some,
        nonneg(*graph) ==> (r matches Some(p) ==> (forall|q: Seq<usize>|
            is_path(*graph, q, from, to) ==> crate::graph::path_cost(*graph, p@)
                <= crate::graph::path_cost(*graph, q))),
        from == to ==> (r matches Some(p) && p@ == seq![from]),
        r matches Some(p) ==> {
            &&& p@.len() >= 1
            &&& p@[0] == from
            &&& p@.last() == to
            &&& p@.no_duplicates()
            &&& forall|k: int| 0 <= k < p@.len() ==> (#[trigger] p@[k]) < graph.node_count()
            &&& forall|k: int|
                0 <= k < p@.len() - 1 ==> graph.edge(#[trigger] p@[k] as int, p@[k + 1] as int)
                    != 0
        },
{
    let n = graph.size();
    proof {
        graph.lemma_wf_bounds();
    }
    let (mut cost, mut path) = initialize(graph, from);
    let len = n - 1;
    let ghost mut u: int = 0int;
    proof {
        assert(cost@ =~= initial_bf_cost(*graph, from));
        assert(path@ =~= initial_bf_path(*graph));
        if nonneg(*graph) {
            assert forall|a: usize, q: Seq<usize>|
                (a as int) < n && #[trigger] is_path(*graph, q, from, a) && q.len()
                    <= 1 implies cost@[a as int] is Some && cost@[a as int]->Some_0
                <= crate::graph::path_cost(*graph, q) by {
                assert(q[0] == from && q.last() == a);
                assert(crate::graph::path_cost(*graph, q) == 0);
            }
        }
    }
    for round in 0..len
        invariant
            graph.wf(),
            n == graph.node_count(),
            1 <= n,
            len == n - 1,
            from < n,
            cost@.len() == n,
            path@.len() == n,
            0 <= u <= round * (n * n),
            forall|k: int|
                0 <= k < n ==> (#[trigger] cost@[k] matches Some(c) ==> -(u * WEIGHT_LIMIT) <= c
                    <= u * WEIGHT_LIMIT),
            preds_valid(*graph, path@),
            nonneg(*graph) ==> bf_tables_ok(*graph, from, cost@, path@),
            nonneg(*graph) ==> (forall|a: usize, q: Seq<usize>|
                (a as int) < n && #[trigger] is_path(*graph, q, from, a) && q.len() <= round + 1
                    ==> cost@[a as int] is Some && cost@[a as int]->Some_0
                    <= crate::graph::path_cost(*graph, q)),
            cost@ == relax_rounds(
                *graph,
                initial_bf_cost(*graph, from),
                initial_bf_path(*graph),
                round as int,
            ).0,
            path@ == relax_rounds(
                *graph,
                initial_bf_cost(*graph, from),
                initial_bf_path(*graph),
                round as int,
            ).1,
    {
        let ghost rc = cost@;
        let ghost rp = path@;
        for i in 0..n
            invariant
                graph.wf(),
                n == graph.node_count(),
                from < n,
                round < len == n - 1,
                cost@.len() == n,
                path@.len() == n,
                0 <= u <= round * (n * n) + i * n,
                forall|k: int|
                    0 <= k < n ==> (#[trigger] cost@[k] matches Some(c) ==> -(u * WEIGHT_LIMIT)
                        <= c <= u * WEIGHT_LIMIT),
                preds_valid(*graph, path@),
                nonneg(*graph) ==> bf_tables_ok(*graph, from, cost@, path@),
                nonneg(*graph) ==> (forall|a: usize, q: Seq<usize>|
                    (a as int) < n && #[trigger] is_path(*graph, q, from, a) && q.len() <= round
                        + 1 ==> rc[a as int] is Some && rc[a as int]->Some_0
                        <= crate::graph::path_cost(*graph, q)),
                rc.len() == n,
                forall|x: int|
                    0 <= x < n && (#[trigger] rc[x]) is Some ==> cost@[x] is Some
                        && cost@[x]->Some_0 <= rc[x]->Some_0,
                forall|x: int, y: int|
                    0 <= x < i && 0 <= y < n && #[trigger] graph.edge(x, y) != 0 && rc[x]
                        is Some ==> cost@[y] is Some && cost@[y]->Some_0 <= rc[x]->Some_0
                        + graph.edge(x, y),
                rp.len() == n,
                cost@ == scan_rows(*graph, rc, rp, i as int).0,
                path@ == scan_rows(*graph, rc, rp, i as int).1,
        {
            let ghost ic = cost@;
            let ghost ip = path@;
            for j in 0..n
                invariant
                    graph.wf(),
                    n == graph.node_count(),
                    from < n,
                    round < len == n - 1,
                    i < n,
                    cost@.len() == n,
                    path@.len() == n,
                    0 <= u <= round * (n * n) + i * n + j,
                    forall|k: int|
                        0 <= k < n ==> (#[trigger] cost@[k] matches Some(c) ==> -(u
                            * WEIGHT_LIMIT) <= c <= u * WEIGHT_LIMIT),
                    preds_valid(*graph, path@),
                    nonneg(*graph) ==> bf_tables_ok(*graph, from, cost@, path@),
                    rc.len() == n,
                    forall|x: int|
                        0 <= x < n && (#[trigger] rc[x]) is Some ==> cost@[x] is Some
                            && cost@[x]->Some_0 <= rc[x]->Some_0,
                    forall|x: int, y: int|
                        (0 <= x < i && 0 <= y < n || x == i && 0 <= y < j) && #[trigger] graph.edge(
                            x,
                            y,
                        ) != 0 && rc[x] is Some ==> cost@[y] is Some && cost@[y]->Some_0
                            <= rc[x]->Some_0 + graph.edge(x, y),
                    ic == scan_rows(*graph, rc, rp, i as int).0,
                    ip == scan_rows(*graph, rc, rp, i as int).1,
                    cost@ == scan_row(*graph, ic, ip, i as int, j as int).0,
                    path@ == scan_row(*graph, ic, ip, i as int, j as int).1,
            {
                let ghost cell_cost = cost@;
                let ghost cell_path = path@;
                let w = graph.weight(i, j);
                if w != 0 {
                    let ci_opt = cost[i];
                    if let Some(ci) = ci_opt {
                        proof {
                            graph.lemma_wf_bounds();
                            assert(u * WEIGHT_LIMIT <= 1000000000000 * WEIGHT_LIMIT) by {
                                assert(u <= round * (n * n) + i * n + j);
                                assert(round * (n * n) + i * n + j < n * (n * n))
                                    by (nonlinear_arith)
                                    requires
                                        0 <= round < n - 1,
                                        0 <= i < n,
                                        0 <= j < n,
                                ;
                                assert(n * (n * n) <= 1000000000000) by (nonlinear_arith)
                                    requires
                                        0 < n <= 10000,
                                ;
                            }
                        }
                        let improves: bool = match cost[j] {
                            Some(cj) => ci + w < cj,
                            None => true,
                        };
                        if improves {
                            let ghost iter_cost = cost@;
                            let ghost iter_path = path@;
                            cost[j] = Some(ci + w);
                            path[j] = Some(i);
                            proof {
                                u = u + 1;
                                assert forall|k: int|
                                    0 <= k < n implies (#[trigger] cost@[k] matches Some(c)
                                    ==> -(u * WEIGHT_LIMIT) <= c <= u * WEIGHT_LIMIT) by {
                                    if k != j {
                                        assert(cost@[k] == iter_cost[k]);
                                    }
                                }
                                assert forall|k: int|
                                    0 <= k < n implies (#[trigger] path@[k] matches Some(p) ==> p
                                    < path@.len() && graph.edge(p as int, k) != 0) by {
                                    if k != j {
                                        assert(path@[k] == iter_path[k]);
                                    } else {
                                        assert(path@[k] == Some(i));
                                    }
                                }
                                if nonneg(*graph) {
                                    assert(graph.edge(i as int, j as int) >= 1);
                                    assert(ci >= 0);
                                    assert(j != from) by {
                                        if j == from {
                                            assert(iter_cost[j as int] == Some(0i64));
                                        }
                                    }
                                    assert forall|k: int|
                                        0 <= k < n implies ((#[trigger] path@[k]) matches Some(pk)
                                        ==> cost@[k] is Some && cost@[pk as int] is Some
                                        && cost@[pk as int]->Some_0 + graph.edge(pk as int, k)
                                        <= cost@[k]->Some_0) by {
                                        if k == j {
                                            assert(path@[j as int] == Some(i));
                                            assert(cost@[i as int] == iter_cost[i as int]);
                                        } else {
                                            assert(path@[k] == iter_path[k]);
                                            assert(cost@[k] == iter_cost[k]);
                                            if iter_path[k] is Some {
                                                let pk = iter_path[k]->Some_0;
                                                if pk == j {
                                                    assert(iter_cost[j as int] is Some);
                                                    assert(ci + w < iter_cost[j as int]->Some_0);
                                                } else {
                                                    assert(cost@[pk as int] == iter_cost[pk as int]);
                                                }
                                            }
                                        }
                                    }
                                    assert forall|k: int|
                                        0 <= k < n && (#[trigger] cost@[k]) is Some && k
                                        != from implies path@[k] is Some by {
                                        if k != j {
                                            assert(cost@[k] == iter_cost[k]);
                                            assert(path@[k] == iter_path[k]);
                                        }
                                    }
                                    assert(cost@[from as int] == iter_cost[from as int]);
                                    assert forall|k: int|
                                        0 <= k < n implies ((#[trigger] cost@[k]) matches Some(c)
                                        ==> c >= 0) by {
                                        if k != j {
                                            assert(cost@[k] == iter_cost[k]);
                                        }
                                    }
                                }
                                assert forall|x: int|
                                    0 <= x < n && (#[trigger] rc[x]) is Some implies cost@[x]
                                    is Some && cost@[x]->Some_0 <= rc[x]->Some_0 by {
                                    if x != j {
                                        assert(cost@[x] == iter_cost[x]);
                                    } else {
                                        assert(iter_cost[x] is Some && iter_cost[x]->Some_0
                                            <= rc[x]->Some_0);
                                    }
                                }
                                assert forall|x: int, y: int|
                                    (0 <= x < i && 0 <= y < n || x == i && 0 <= y < j + 1)
                                        && #[trigger] graph.edge(x, y) != 0 && rc[x]
                                        is Some implies cost@[y] is Some && cost@[y]->Some_0
                                    <= rc[x]->Some_0 + graph.edge(x, y) by {
                                    if y != j {
                                        assert(cost@[y] == iter_cost[y]);
                                    } else {
                                        assert(iter_cost[i as int] is Some);
                                        assert(ci <= rc[i as int]->Some_0 || rc[i as int]
                                            is None);
                                        if x == i as int {
                                            assert(ci + w <= rc[i as int]->Some_0 + graph.edge(
                                                x,
                                                y,
                                            ));
                                        } else {
                                            assert(iter_cost[y] is Some && iter_cost[y]->Some_0
                                                <= rc[x]->Some_0 + graph.edge(x, y));
                                        }
                                    }
                                }
                            }
                        } else {
                            proof {
                                assert(cost@[j as int] is Some);
                            }
                        }
                    } else {
                        proof {
                            if rc[i as int] is Some {
                                assert(cost@[i as int] is Some);
                            }
                        }
                    }
                }
                proof {
                    assert(cost@ == relax_cell(*graph, cell_cost, cell_path, i as int, j as int).0
                        && path@ == relax_cell(*graph, cell_cost, cell_path, i as int, j as int).1);
                    assert(cost@ == scan_row(*graph, ic, ip, i as int, j + 1).0 && path@
                        == scan_row(*graph, ic, ip, i as int, j + 1).1);
                }
            }
            proof {
                assert((i + 1) * n == i * n + n) by (nonlinear_arith);
                assert(cost@ == scan_rows(*graph, rc, rp, i + 1).0 && path@ == scan_rows(
                    *graph,
                    rc,
                    rp,
                    i + 1,
                ).1);
            }
        }
        proof {
            assert((round + 1) * (n * n) == round * (n * n) + n * n) by (nonlinear_arith);
            assert(cost@ == relax_rounds(
                *graph,
                initial_bf_cost(*graph, from),
                initial_bf_path(*graph),
                round + 1,
            ).0 && path@ == relax_rounds(
                *graph,
                initial_bf_cost(*graph, from),
                initial_bf_path(*graph),
                round + 1,
            ).1);
            if nonneg(*graph) {
                assert forall|a: usize, p: Seq<usize>|
                    (a as int) < n && #[trigger] is_path(*graph, p, from, a) && p.len() <= round
                        + 2 implies cost@[a as int] is Some && cost@[a as int]->Some_0
                    <= crate::graph::path_cost(*graph, p) by {
                    if p.len() <= round + 1 {
                        assert(rc[a as int] is Some && rc[a as int]->Some_0
                            <= crate::graph::path_cost(*graph, p));
                    } else {
                        let b = p[p.len() - 2];
                        let q = p.subrange(0, p.len() - 1);
                        assert(is_path(*graph, q, from, b)) by {
                            assert(q[0] == p[0]);
                            assert(q.last() == p[p.len() - 2]);
                            assert forall|k: int|
                                0 <= k < q.len() implies ((#[trigger] q[k]) as int) < n by {
                                assert(q[k] == p[k]);
                            }
                            assert forall|k: int|
                                0 <= k < q.len() - 1 implies graph.edge(
                                #[trigger] q[k] as int,
                                q[k + 1] as int,
                            ) != 0 by {
                                assert(q[k] == p[k]);
                                assert(q[k + 1] == p[k + 1]);
                            }
                        }
                        assert(is_path(*graph, q, from, b) && q.len() <= round + 1);
                        assert(rc[b as int] is Some && rc[b as int]->Some_0
                            <= crate::graph::path_cost(*graph, q));
                        assert(graph.edge(p[p.len() - 2] as int, p[p.len() - 1] as int) != 0);
                        assert(p[p.len() - 1] == a);
                        assert(cost@[a as int] is Some && cost@[a as int]->Some_0
                            <= rc[b as int]->Some_0 + graph.edge(b as int, a as int));
                        assert(p.drop_last() =~= q);
                        assert(crate::graph::path_cost(*graph, p) == crate::graph::path_cost(
                            *graph,
                            q,
                        ) + graph.edge(b as int, a as int));
                    }
                }
            }
        }
    }
    proof {
        if nonneg(*graph) && reachable(*graph, from, to) && from != to {
            let p0 = choose|p: Seq<usize>| is_path(*graph, p, from, to);
            lemma_short_path(*graph, p0, from, to);
            let w = choose|w: Seq<usize>|
                is_path(*graph, w, from, to) && w.len() <= n && (!nonneg(*graph)
                    || crate::graph::path_cost(*graph, w) <= crate::graph::path_cost(
                    *graph,
                    p0,
                ));
            assert(cost@[to as int] is Some);
            assert(path@[to as int] is Some);
            lemma_ranked_chain(
                *graph,
                cost@,
                path@,
                from,
                to,
                cost@[to as int]->Some_0 as nat,
            );
            crate::utils::lemma_chain_fuel_to_len(
                path@,
                from,
                to,
                cost@[to as int]->Some_0 as nat,
            );
        }
    }
    let r = build_path(&path, from, to);
    proof {
        if chain_reaches(path@, from, to, path@.len() as nat) {
            crate::dijkstra::lemma_chain_path_valid(
                *graph,
                path@,
                from,
                to,
                path@.len() as nat,
            );
            crate::utils::lemma_chain_path_simple(path@, from, to, path@.len() as nat);
            let p = chain_path(path@, from, to, path@.len() as nat);
            assert(is_path(*graph, p, from, to));
            assert(reachable(*graph, from, to));
            if nonneg(*graph) {
                // the returned chain costs no more than the table's estimate,
                // and the table's estimate beats every (shortened) path
                if from != to {
                    assert(path@[to as int] is Some);
                } else {
                    assert(cost@[to as int] == Some(0i64));
                }
                assert(cost@[to as int] is Some);
                let bound = cost@[to as int]->Some_0 as nat;
                lemma_ranked_chain(*graph, cost@, path@, from, to, bound);
                crate::utils::lemma_chain_path_fuel_mono(
                    path@,
                    from,
                    to,
                    bound,
                    bound + path@.len(),
                );
                crate::utils::lemma_chain_path_fuel_mono(
                    path@,
                    from,
                    to,
                    path@.len() as nat,
                    bound + path@.len(),
                );
                assert(crate::graph::path_cost(*graph, p) <= cost@[to as int]->Some_0);
                assert forall|q: Seq<usize>|
                    is_path(*graph, q, from, to) implies crate::graph::path_cost(*graph, p)
                    <= crate::graph::path_cost(*graph, q) by {
                    lemma_short_path(*graph, q, from, to);
                    let w = choose|w: Seq<usize>|
                        is_path(*graph, w, from, to) && w.len() <= n && (!nonneg(*graph)
                            || crate::graph::path_cost(*graph, w) <= crate::graph::path_cost(
                            *graph,
                            q,
                        ));
                    assert(cost@[to as int]->Some_0 <= crate::graph::path_cost(*graph, w));
                }
            }
        }
    }
    r
}

} // verus!
