//! Greedy maximum-weight tour constructor (farthest insertion).
//!
//! Starting at `from`, the walk repeatedly appends the positive-weight
//! neighbor of the current node with the largest weight that has not been
//! visited yet, keeping the reserved terminal `to` out of reach until the
//! very last of the `N - 1` insertions, where the exclusion flips to `from`
//! so the walk can only land on `to`.  This is a greedy maximum-weight walk,
//! not a shortest path, and is not optimal for any standard tour objective.
//! A negative-weight edge is never walked: the maximization starts its
//! comparison just below zero, so only positive weights are ever eligible.

use crate::graph::Graph;
use crate::utils::contains_node;
use vstd::prelude::*;
use vstd::set_lib::lemma_int_range;
use vstd::set_lib::lemma_subset_equality;
use vstd::set_lib::set_int_range;

verus! {

/// Whether node `i` may be the next step of a tour standing at `curr`:
/// a node of the graph, joined to `curr` by a positive-weight edge, not yet
/// visited, and not the excluded endpoint.  A negative-weight edge is never
/// walked: the walk maximizes and starts its comparison below zero.
pub open spec fn tour_eligible(
    g: Graph,
    curr: usize,
    visited: Seq<usize>,
    excluded: usize,
    i: int,
) -> bool {
    &&& 0 <= i < g.node_count()
    &&& g.edge(curr as int, i) >= 1
    &&& !visited.contains(i as usize)
    &&& i != excluded
}

/// `m` is the greedy pick out of `curr`: eligible, of maximal weight among
/// the eligible neighbors, and the lowest index among those of that weight.
pub open spec fn best_choice(
    g: Graph,
    curr: usize,
    visited: Seq<usize>,
    excluded: usize,
    m: usize,
) -> bool {
    &&& tour_eligible(g, curr, visited, excluded, m as int)
    &&& forall|i: int|
        #[trigger] tour_eligible(g, curr, visited, excluded, i) ==> g.edge(curr as int, i)
            <= g.edge(curr as int, m as int)
    &&& forall|i: int|
        #[trigger] tour_eligible(g, curr, visited, excluded, i) && i < m ==> g.edge(
            curr as int,
            i,
        ) < g.edge(curr as int, m as int)
}

/// Step `k` of a finished tour `p`: the node `p[k + 1]` was the greedy pick
/// out of `p[k]` given the visited prefix, with `to` excluded on every step
/// but the last and `from` excluded there.
pub open spec fn greedy_step(g: Graph, p: Seq<usize>, from: usize, to: usize, k: int) -> bool {
    best_choice(
        g,
        p[k],
        p.subrange(0, k + 1),
        if k == g.node_count() - 2 {
            from
        } else {
            to
        },
        p[k + 1],
    )
}

proof fn lemma_best_choice_unique(
    g: Graph,
    curr: usize,
    visited: Seq<usize>,
    excluded: usize,
    m1: usize,
    m2: usize,
)
    requires
        best_choice(g, curr, visited, excluded, m1),
        best_choice(g, curr, visited, excluded, m2),
    ensures
        m1 == m2,
{
    assert(tour_eligible(g, curr, visited, excluded, m1 as int));
    assert(tour_eligible(g, curr, visited, excluded, m2 as int));
    if m1 < m2 {
        assert(g.edge(curr as int, m1 as int) < g.edge(curr as int, m2 as int));
        assert(g.edge(curr as int, m2 as int) <= g.edge(curr as int, m1 as int));
    } else if m2 < m1 {
        assert(g.edge(curr as int, m2 as int) < g.edge(curr as int, m1 as int));
        assert(g.edge(curr as int, m1 as int) <= g.edge(curr as int, m2 as int));
    }
}

/// The relation between a walk state and the final outcome `r`: standing at
/// `curr` with the visited sequence `p` after `i` insertions, the walk ends
/// in `r`.  When all `N - 1` insertions are done the outcome is the visited
/// sequence; when no pick is eligible the outcome is `None`; otherwise the
/// walk extends by the greedy pick, which [`lemma_best_choice_unique`] shows
/// is unique, so exactly one outcome satisfies the relation.
pub open spec fn greedy_outcome_from(
    g: Graph,
    from: usize,
    to: usize,
    p: Seq<usize>,
    curr: usize,
    i: int,
    r: Option<Seq<usize>>,
) -> bool
    decreases g.node_count() - 1 - i, 1int,
{
    if i >= g.node_count() - 1 {
        r == Some(p)
    } else {
        greedy_outcome_step(
            g,
            from,
            to,
            p,
            curr,
            i,
            if i == g.node_count() - 2 {
                from
            } else {
                to
            },
            r,
        )
    }
}

/// One insertion of the walk, with the node excluded on this step spelled
/// out: either no pick is eligible and the outcome is `None`, or the walk
/// continues from the greedy pick.
pub open spec fn greedy_outcome_step(
    g: Graph,
    from: usize,
    to: usize,
    p: Seq<usize>,
    curr: usize,
    i: int,
    excluded: usize,
    r: Option<Seq<usize>>,
) -> bool
    decreases g.node_count() - 1 - i, 0int,
        when i < g.node_count() - 1
{
    &&& ((forall|m: usize| !best_choice(g, curr, p, excluded, m)) ==> r is None)
    &&& (forall|m: usize|
        #[trigger] best_choice(g, curr, p, excluded, m) ==> greedy_outcome_from(
            g,
            from,
            to,
            p.push(m),
            m,
            i + 1,
            r,
        ))
}

/// What [`farthest_inserction`] returns: the outcome of the greedy walk run
/// to completion from the single-node sequence `[from]`.
pub open spec fn greedy_outcome(g: Graph, from: usize, to: usize, r: Option<Seq<usize>>) -> bool {
    greedy_outcome_from(g, from, to, seq![from], from, 0, r)
}

/// Picks the eligible neighbor of `curr` with the largest weight, ties to
/// the lowest index; `None` when no neighbor is eligible.
pub fn select_next_max(graph: &Graph, curr: usize, path: &Vec<usize>, excluded: usize) -> (r:
    Option<usize>)
    requires
        graph.wf(),
        curr < graph.node_count(),
    ensures
        r is None <==> (forall|i: int| !tour_eligible(*graph, curr, path@, excluded, i)),
        match r {
            Some(m) => best_choice(*graph, curr, path@, excluded, m),
            None => true,
        },
{
    let n = graph.size();
    let mut out: Option<usize> = None;
    let mut maxw: i64 = -1;
    for i in 0..n
        invariant
            graph.wf(),
            n == graph.node_count(),
            curr < n,
            match out {
                Some(m) => {
                    &&& (m as int) < i
                    &&& tour_eligible(*graph, curr, path@, excluded, m as int)
                    &&& maxw == graph.edge(curr as int, m as int)
                    &&& forall|k: int|
                        #[trigger] tour_eligible(*graph, curr, path@, excluded, k) && k < i
                            ==> graph.edge(curr as int, k) <= maxw
                    &&& forall|k: int|
                        #[trigger] tour_eligible(*graph, curr, path@, excluded, k) && k < m
                            ==> graph.edge(curr as int, k) < maxw
                },
                None => {
                    &&& maxw == -1
                    &&& forall|k: int| k < i ==> !tour_eligible(*graph, curr, path@, excluded, k)
                },
            },
    {
        let w = graph.weight(curr, i);
        if w != 0 && !contains_node(path, i) && i != excluded {
            if w > maxw {
                maxw = w;
                out = Some(i);
            }
        }
    }
    out
}

/// Builds a full greedy maximum-weight tour from `from` to `to`.
///
/// Repeats `N - 1` insertions, each the greedy choice of
/// [`select_next_max`], excluding the terminal `to` on every step but the
/// last and the start `from` on the last; fails with `None` the moment a
/// step has no eligible neighbor.  The result — success or failure — is the
/// one outcome that [`greedy_outcome`] admits.  On success it visits each
/// of the `N` nodes exactly once, starts at `from`, ends at `to` (whenever
/// `from != to`; with `from == to` and more than one node the walk cannot
/// land back on its start), and every step is pinned by [`greedy_step`].
pub fn farthest_inserction(graph: &Graph, from: usize, to: usize) -> (r: Option<Vec<usize>>)
    requires
        graph.wf(),
        from < graph.node_count(),
        to < graph.node_count(),
    ensures
        greedy_outcome(
            *graph,
            from,
            to,
            match r {
                Some(p) => Some(p@),
                None => None::<Seq<usize>>,
            },
        ),
        graph.node_count() == 1 ==> (r matches Some(p) && p@ == seq![from]),
        r matches Some(p) ==> {
            &&& p@.len() == graph.node_count()
            &&& p@[0] == from
            &&& p@.no_duplicates()
            &&& forall|k: int| 0 <= k < p@.len() ==> (#[trigger] p@[k]) < graph.node_count()
            &&& from != to ==> p@.last() == to
            &&& forall|k: int| 0 <= k < p@.len() - 1 ==> greedy_step(*graph, p@, from, to, k)
        },
{
    let n = graph.size();
    let mut output: Vec<usize> = Vec::new();
    output.push(from);
    let mut curr = from;
    let len = n - 1;
    for step in 0..len
        invariant
            graph.wf(),
            n == graph.node_count(),
            from < n,
            to < n,
            len == n - 1,
            curr < n,
            output@.len() == step + 1,
            output@[0] == from,
            output@.last() == curr,
            output@.no_duplicates(),
            forall|k: int| 0 <= k < output@.len() ==> (#[trigger] output@[k]) < n,
            from != to && step < len ==> !output@.contains(to),
            from != to && step == len ==> output@.last() == to,
            forall|k: int| 0 <= k < step ==> greedy_step(*graph, output@, from, to, k),
            forall|rr: Option<Seq<usize>>|
                greedy_outcome_from(*graph, from, to, output@, curr, step as int, rr)
                    ==> #[trigger] greedy_outcome(*graph, from, to, rr),
    {
        let excluded = if step == len - 1 {
            from
        } else {
            to
        };
        let next = select_next_max(graph, curr, &output, excluded);
        match next {
            Some(m) => {
                let ghost pre = output@;
                output.push(m);
                proof {
                    assert(best_choice(*graph, curr, pre, excluded, m));
                    assert(output@ == pre.push(m));
                    if step == len - 1 {
                        assert(excluded == from);
                        assert(step as int == graph.node_count() - 2);
                    } else {
                        assert(excluded == to);
                        assert(step as int != graph.node_count() - 2);
                    }
                    assert forall|rr: Option<Seq<usize>>|
                        greedy_outcome_from(
                            *graph,
                            from,
                            to,
                            output@,
                            m,
                            step + 1,
                            rr,
                        ) implies #[trigger] greedy_outcome(*graph, from, to, rr) by {
                        assert(greedy_outcome_step(
                            *graph,
                            from,
                            to,
                            pre,
                            curr,
                            step as int,
                            excluded,
                            rr,
                        )) by {
                            assert forall|mm: usize|
                                #[trigger] best_choice(*graph, curr, pre, excluded, mm)
                                    implies greedy_outcome_from(
                                    *graph,
                                    from,
                                    to,
                                    pre.push(mm),
                                    mm,
                                    step + 1,
                                    rr,
                                ) by {
                                lemma_best_choice_unique(*graph, curr, pre, excluded, mm, m);
                            }
                        }
                        assert(greedy_outcome_from(*graph, from, to, pre, curr, step as int, rr));
                    }
                    assert(pre =~= output@.subrange(0, step + 1));
                    assert forall|k: int|
                        0 <= k < output@.len() - 1 implies output@[k] == pre[k] by {}
                    assert(output@.no_duplicates()) by {
                        assert(!pre.contains(m));
                        assert forall|a: int, b: int|
                            0 <= a < output@.len() && 0 <= b < output@.len() && a
                                != b implies output@[a] != output@[b] by {
                            if a < pre.len() && b < pre.len() {
                                assert(output@[a] == pre[a] && output@[b] == pre[b]);
                            } else if a < pre.len() {
                                assert(output@[b] == m && output@[a] == pre[a]);
                                assert(pre.contains(pre[a]));
                            } else {
                                assert(output@[a] == m && output@[b] == pre[b]);
                                assert(pre.contains(pre[b]));
                            }
                        }
                    }
                    // the new last pair is the greedy choice just made
                    assert forall|k: int|
                        0 <= k < step + 1 implies greedy_step(*graph, output@, from, to, k) by {
                        assert(output@.subrange(0, k + 1) =~= pre.subrange(0, k + 1));
                        if k < step {
                            assert(greedy_step(*graph, pre, from, to, k));
                            assert(output@[k] == pre[k]);
                            assert(output@[k + 1] == pre[k + 1]);
                        } else {
                            assert(output@.subrange(0, k + 1) =~= pre);
                            assert(output@[k] == curr);
                            assert(output@[k + 1] == m);
                            assert(k == n - 2 <==> step == len - 1);
                            assert(best_choice(*graph, curr, pre, excluded, m));
                        }
                    }
                    // on the last insertion only the reserved terminal is left
                    if step == len - 1 && from != to {
                        let mapped = pre.map_values(|x: usize| x as int);
                        assert(mapped.no_duplicates()) by {
                            pre.lemma_no_duplicates_injective(|x: usize| x as int);
                        }
                        mapped.unique_seq_to_set();
                        let range = set_int_range(0, n as int).remove(to as int);
                        lemma_int_range(0, n as int);
                        assert(mapped.to_set().subset_of(range)) by {
                            assert forall|y: int| mapped.to_set().contains(y) implies range.contains(
                                y,
                            ) by {
                                let a = choose|a: int| 0 <= a < mapped.len() && mapped[a] == y;
                                assert(pre[a] < n);
                                assert(pre[a] != to);
                                assert(pre.contains(pre[a]));
                            }
                        }
                        assert(set_int_range(0, n as int).contains(to as int));
                        assert(range.len() == n - 1);
                        assert(mapped.to_set().len() == n - 1);
                        lemma_subset_equality(mapped.to_set(), range);
                        if m != to {
                            assert(range.contains(m as int));
                            assert(mapped.to_set().contains(m as int));
                            let a = choose|a: int|
                                0 <= a < mapped.len() && mapped[a] == m as int;
                            assert(pre[a] == m);
                            assert(pre.contains(m));
                            assert(false);
                        }
                    }
                }
                curr = m;
            },
            None => {
                proof {
                    if step == len - 1 {
                        assert(excluded == from);
                        assert(step as int == graph.node_count() - 2);
                    } else {
                        assert(excluded == to);
                        assert(step as int != graph.node_count() - 2);
                    }
                    assert forall|mm: usize|
                        !best_choice(*graph, curr, output@, excluded, mm) by {
                        assert(!tour_eligible(*graph, curr, output@, excluded, mm as int));
                    }
                    assert(greedy_outcome_step(
                        *graph,
                        from,
                        to,
                        output@,
                        curr,
                        step as int,
                        excluded,
                        None::<Seq<usize>>,
                    ));
                    assert(greedy_outcome_from(
                        *graph,
                        from,
                        to,
                        output@,
                        curr,
                        step as int,
                        None::<Seq<usize>>,
                    ));
                }
                return None;
            },
        }
    }
    Some(output)
}

} // verus!
