//! Predecessor-table helpers shared by the shortest-path engines: walking a
//! table backward into a forward-ordered path, and seeding the frontier from
//! a source node's outgoing edges.

use crate::graph::Graph;
use vstd::prelude::*;

verus! {

/// Does the predecessor chain that starts at `cur` reach `from` within
/// `fuel` steps?  Entries must stay inside the table for the walk to count.
pub open spec fn chain_reaches(
    tree: Seq<Option<usize>>,
    from: usize,
    cur: usize,
    fuel: nat,
) -> bool
    decreases fuel,
{
    if cur == from {
        true
    } else if fuel == 0 {
        false
    } else {
        match tree[cur as int] {
            Some(prev) => prev < tree.len() && chain_reaches(tree, from, prev, (fuel - 1) as nat),
            None => false,
        }
    }
}

/// More fuel never hurts: a chain that reaches within `f1` steps reaches
/// within any `f2 >= f1`.
pub proof fn lemma_chain_mono(tree: Seq<Option<usize>>, from: usize, cur: usize, f1: nat, f2: nat)
    requires
        chain_reaches(tree, from, cur, f1),
        f1 <= f2,
    ensures
        chain_reaches(tree, from, cur, f2),
    decreases f1,
{
    if cur != from {
        let prev = tree[cur as int]->Some_0;
        lemma_chain_mono(tree, from, prev, (f1 - 1) as nat, (f2 - 1) as nat);
    }
}

/// A chain that starts at `j` and then runs through nodes of the set `sel`
/// survives any rewrite of the table that leaves `sel`'s entries and `j`'s
/// alone.
pub proof fn lemma_chain_frame(
    t1: Seq<Option<usize>>,
    t2: Seq<Option<usize>>,
    sel: Seq<bool>,
    from: usize,
    j: usize,
    f: nat,
)
    requires
        t2.len() == t1.len(),
        sel.len() == t1.len(),
        from < t1.len(),
        j < t1.len(),
        chain_reaches(t1, from, j, f),
        forall|x: int| 0 <= x < t1.len() && sel[x] ==> t2[x] == t1[x],
        forall|x: int|
            0 <= x < t1.len() ==> (#[trigger] t1[x] matches Some(w) ==> w < t1.len()
                && sel[w as int]),
        t2[j as int] == t1[j as int],
    ensures
        chain_reaches(t2, from, j, f),
        chain_path(t2, from, j, f) == chain_path(t1, from, j, f),
    decreases f,
{
    if j != from {
        let u = t1[j as int]->Some_0;
        assert(sel[u as int]);
        assert(t2[u as int] == t1[u as int]);
        lemma_chain_frame(t1, t2, sel, from, u, (f - 1) as nat);
    }
}

/// The forward-ordered node sequence that the predecessor chain induces,
/// from `from` up to `cur`, both endpoints included.  Meaningful whenever
/// [`chain_reaches`] holds of the same arguments.
pub open spec fn chain_path(
    tree: Seq<Option<usize>>,
    from: usize,
    cur: usize,
    fuel: nat,
) -> Seq<usize>
    decreases fuel,
{
    if cur == from {
        seq![from]
    } else if fuel == 0 {
        Seq::empty()
    } else {
        match tree[cur as int] {
            Some(prev) => chain_path(tree, from, prev, (fuel - 1) as nat).push(cur),
            None => Seq::empty(),
        }
    }
}

/// The path a reaching chain induces is simple: it starts at `from`, ends
/// at `cur`, records the chain's links, and repeats no node — a repeat
/// would close a loop in the deterministic predecessor walk, and a looping
/// walk never reaches `from`.
pub proof fn lemma_chain_path_simple(tree: Seq<Option<usize>>, from: usize, cur: usize, fuel: nat)
    requires
        from < tree.len(),
        cur < tree.len(),
        chain_reaches(tree, from, cur, fuel),
    ensures
        ({
            let p = chain_path(tree, from, cur, fuel);
            &&& p.len() >= 1
            &&& p[0] == from
            &&& p.last() == cur
            &&& forall|k: int| 0 <= k < p.len() ==> (#[trigger] p[k]) < tree.len()
            &&& forall|k: int| 0 <= k < p.len() - 1 ==> tree[p[k + 1] as int] == Some(p[k])
            &&& p.no_duplicates()
        }),
    decreases fuel,
{
    let p = chain_path(tree, from, cur, fuel);
    if cur == from {
        assert(p =~= seq![from]);
    } else {
        let prev = tree[cur as int]->Some_0;
        lemma_chain_path_simple(tree, from, prev, (fuel - 1) as nat);
        let q = chain_path(tree, from, prev, (fuel - 1) as nat);
        assert(p == q.push(cur));
        assert forall|k: int|
            0 <= k < p.len() - 1 implies tree[p[k + 1] as int] == Some(p[k]) by {
            if k < q.len() - 1 {
                assert(p[k] == q[k]);
                assert(p[k + 1] == q[k + 1]);
            } else {
                assert(p[k] == q.last());
                assert(p[k + 1] == cur);
            }
        }
        assert(!q.contains(cur)) by {
            if q.contains(cur) {
                let k = choose|k: int| 0 <= k < q.len() && q[k] == cur;
                if k == 0 {
                    assert(cur == from);
                } else {
                    assert(tree[q[k] as int] == Some(q[k - 1]));
                    assert(q[k - 1] == prev);
                    assert(q[q.len() - 1] == prev);
                    assert(k - 1 == q.len() - 1);
                }
            }
        }
        assert forall|a: int, b: int|
            0 <= a < p.len() && 0 <= b < p.len() && a != b implies p[a] != p[b] by {
            if a < q.len() && b < q.len() {
                assert(p[a] == q[a] && p[b] == q[b]);
            } else if a < q.len() {
                assert(p[b] == cur && p[a] == q[a]);
                assert(q.contains(q[a]));
            } else if b < q.len() {
                assert(p[a] == cur && p[b] == q[b]);
                assert(q.contains(q[b]));
            }
        }
    }
}

/// More fuel never changes the path a reaching chain induces.
pub proof fn lemma_chain_path_fuel_mono(
    tree: Seq<Option<usize>>,
    from: usize,
    cur: usize,
    f1: nat,
    f2: nat,
)
    requires
        chain_reaches(tree, from, cur, f1),
        f1 <= f2,
    ensures
        chain_path(tree, from, cur, f2) == chain_path(tree, from, cur, f1),
    decreases f1,
{
    if cur != from {
        let prev = tree[cur as int]->Some_0;
        lemma_chain_path_fuel_mono(tree, from, prev, (f1 - 1) as nat, (f2 - 1) as nat);
    }
}

proof fn lemma_chain_exact_fuel(tree: Seq<Option<usize>>, from: usize, cur: usize, fuel: nat)
    requires
        from < tree.len(),
        cur < tree.len(),
        chain_reaches(tree, from, cur, fuel),
    ensures
        chain_reaches(tree, from, cur, (chain_path(tree, from, cur, fuel).len() - 1) as nat),
    decreases fuel,
{
    if cur != from {
        let prev = tree[cur as int]->Some_0;
        lemma_chain_exact_fuel(tree, from, prev, (fuel - 1) as nat);
        lemma_chain_path_simple(tree, from, prev, (fuel - 1) as nat);
        let q = chain_path(tree, from, prev, (fuel - 1) as nat);
        assert(chain_path(tree, from, cur, fuel) == q.push(cur));
        lemma_chain_mono(tree, from, prev, (q.len() - 1) as nat, (q.len() - 1) as nat);
        assert(chain_reaches(tree, from, cur, ((q.len() + 1) - 1) as nat));
    }
}

/// A chain that reaches within any amount of fuel reaches within table-many
/// steps: the walk never repeats a node, so it is no longer than the table.
pub proof fn lemma_chain_fuel_to_len(tree: Seq<Option<usize>>, from: usize, cur: usize, fuel: nat)
    requires
        from < tree.len(),
        cur < tree.len(),
        chain_reaches(tree, from, cur, fuel),
    ensures
        chain_reaches(tree, from, cur, tree.len() as nat),
{
    lemma_chain_exact_fuel(tree, from, cur, fuel);
    lemma_chain_path_simple(tree, from, cur, fuel);
    let p = chain_path(tree, from, cur, fuel);
    crate::graph::lemma_distinct_nodes_bound(p, tree.len() as int);
    lemma_chain_mono(tree, from, cur, (p.len() - 1) as nat, tree.len() as nat);
}

/// Walks the predecessor table backward from `to` until `from`, then returns
/// the collected nodes in forward order, both endpoints included.
///
/// Returns `None` exactly when the chain breaks — a missing or out-of-range
/// predecessor, or a cycle — before reaching `from`.  The `Option` is this
/// crate's chosen form for both of the walk's callers: for the
/// full-relaxation engine a broken chain is the normal "unreachable"
/// answer, while the frontier engine proves its chains unbroken before
/// walking them, so for it the `None` arm is dead code rather than a panic.
pub fn build_path(tree: &Vec<Option<usize>>, from: usize, to: usize) -> (r: Option<Vec<usize>>)
    requires
        from < tree@.len(),
        to < tree@.len(),
    ensures
        r is Some <==> chain_reaches(tree@, from, to, tree@.len() as nat),
        match r {
            Some(p) => p@ == chain_path(tree@, from, to, tree@.len() as nat),
            None => true,
        },
{
    let n = tree.len();
    let mut out: Vec<usize> = Vec::new();
    let mut curr = to;
    let mut steps: usize = 0;
    while curr != from
        invariant
            n == tree@.len(),
            from < n,
            curr < n,
            steps <= n,
            chain_reaches(tree@, from, to, n as nat) <==> chain_reaches(
                tree@,
                from,
                curr,
                (n - steps) as nat,
            ),
            chain_reaches(tree@, from, curr, (n - steps) as nat) ==> chain_path(
                tree@,
                from,
                to,
                n as nat,
            ) == chain_path(tree@, from, curr, (n - steps) as nat) + out@.reverse(),
        decreases n - steps,
    {
        if steps == n {
            return None;
        }
        match tree[curr] {
            Some(prev) => {
                if prev >= n {
                    return None;
                }
                proof {
                    let m = (n - steps) as nat;
                    assert(chain_reaches(tree@, from, curr, m) == chain_reaches(
                        tree@,
                        from,
                        prev,
                        (m - 1) as nat,
                    ));
                    assert((out@.push(curr)).reverse() =~= seq![curr] + out@.reverse());
                    assert(chain_path(tree@, from, curr, m) == chain_path(
                        tree@,
                        from,
                        prev,
                        (m - 1) as nat,
                    ).push(curr));
                    assert(chain_path(tree@, from, prev, (m - 1) as nat).push(curr) + out@.reverse()
                        =~= chain_path(tree@, from, prev, (m - 1) as nat) + (seq![curr]
                        + out@.reverse()));
                }
                out.push(curr);
                curr = prev;
                steps = steps + 1;
            },
            None => {
                return None;
            },
        }
    }
    proof {
        assert(chain_reaches(tree@, from, curr, (n - steps) as nat));
        assert(chain_path(tree@, from, curr, (n - steps) as nat) == seq![from]);
        assert((out@.push(from)).reverse() =~= seq![from] + out@.reverse());
    }
    out.push(from);
    let mut res: Vec<usize> = Vec::new();
    let mut i: usize = out.len();
    while i > 0
        invariant
            i <= out@.len(),
            res@.len() == out@.len() - i,
            forall|k: int| 0 <= k < res@.len() ==> res@[k] == out@[out@.len() - 1 - k],
        decreases i,
    {
        i = i - 1;
        res.push(out[i]);
    }
    proof {
        assert(res@ =~= out@.reverse());
    }
    Some(res)
}

/// Linear-scan membership test on a node list.
pub(crate) fn contains_node(v: &Vec<usize>, x: usize) -> (r: bool)
    ensures
        r == v@.contains(x),
{
    let n = v.len();
    for k in 0..n
        invariant
            n == v@.len(),
            forall|m: int| 0 <= m < k ==> v@[m] != x,
    {
        if v[k] == x {
            return true;
        }
    }
    false
}

/// Seeds the frontier of a shortest-path run from `from`'s outgoing edges:
/// every node with a nonzero edge out of `from` gets `from` as predecessor
/// and the edge weight as tentative cost; every other node stays unknown.
pub fn initialize(graph: &Graph, from: usize) -> (r: (Vec<Option<usize>>, Vec<Option<i64>>))
    requires
        graph.wf(),
        from < graph.node_count(),
    ensures
        r.0@.len() == graph.node_count(),
        r.1@.len() == graph.node_count(),
        forall|j: int|
            0 <= j < graph.node_count() ==> r.0@[j] == (if graph.edge(from as int, j) != 0 {
                Some(from)
            } else {
                Option::<usize>::None
            }),
        forall|j: int|
            0 <= j < graph.node_count() ==> r.1@[j] == (if graph.edge(from as int, j) != 0 {
                Some(graph.edge(from as int, j) as i64)
            } else {
                Option::<i64>::None
            }),
{
    let n = graph.size();
    let mut path: Vec<Option<usize>> = Vec::new();
    let mut cost: Vec<Option<i64>> = Vec::new();
    for j in 0..n
        invariant
            graph.wf(),
            from < n,
            n == graph.node_count(),
            path@.len() == j,
            cost@.len() == j,
            forall|k: int|
                0 <= k < j ==> path@[k] == (if graph.edge(from as int, k) != 0 {
                    Some(from)
                } else {
                    Option::<usize>::None
                }),
            forall|k: int|
                0 <= k < j ==> cost@[k] == (if graph.edge(from as int, k) != 0 {
                    Some(graph.edge(from as int, k) as i64)
                } else {
                    Option::<i64>::None
                }),
    {
        let w = graph.weight(from, j);
        if w != 0 {
            path.push(Some(from));
            cost.push(Some(w));
        } else {
            path.push(None);
            cost.push(None);
        }
    }
    (path, cost)
}

} // verus!
