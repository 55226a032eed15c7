//! The dense weighted graph that every engine of this crate reads.

use vstd::prelude::*;

verus! {

/// Largest node count a [`Graph`] accepts.
pub const NODE_LIMIT: usize = 10000;

/// Largest weight magnitude a [`Graph`] accepts.
pub const WEIGHT_LIMIT: i64 = 1000000;

/// A read-only square matrix of integer edge weights.
///
/// Cell `(i, j)` is the weight of the directed edge `i -> j`; `0` means that
/// the edge is absent (a true zero-weight edge cannot be represented).  The
/// diagonal is conventionally `0`.  Node count and weight magnitude are
/// bounded by [`NODE_LIMIT`] and [`WEIGHT_LIMIT`] so that every sum an engine
/// forms — at worst one weight per relaxation over `N - 1` full-matrix
/// passes, `NODE_LIMIT^3 * WEIGHT_LIMIT = 10^18` — stays within `i64`.
pub struct Graph {
    rows: Vec<Vec<i64>>,
}

/// Whether a matrix, given as its sequence of rows, can back a [`Graph`]:
/// square, within [`NODE_LIMIT`], every weight within [`WEIGHT_LIMIT`].
pub open spec fn admissible(rows: Seq<Seq<i64>>) -> bool {
    &&& rows.len() <= NODE_LIMIT
    &&& forall|i: int| 0 <= i < rows.len() ==> (#[trigger] rows[i]).len() == rows.len()
    &&& forall|i: int, j: int|
        0 <= i < rows.len() && 0 <= j < rows.len() ==> -WEIGHT_LIMIT
            <= #[trigger] rows[i][j] <= WEIGHT_LIMIT
}

/// Is `p` a path of `g` from `a` to `b`: nonempty, both endpoints right,
/// every node in range, every consecutive pair joined by an edge of `g`.
pub open spec fn is_path(g: Graph, p: Seq<usize>, a: usize, b: usize) -> bool {
    &&& p.len() >= 1
    &&& p[0] == a
    &&& p.last() == b
    &&& forall|k: int| 0 <= k < p.len() ==> ((#[trigger] p[k]) as int) < g.node_count()
    &&& forall|k: int| 0 <= k < p.len() - 1 ==> g.edge(#[trigger] p[k] as int, p[k + 1] as int) != 0
}

/// Does some path of `g` lead from `a` to `b`?  Every node reaches itself
/// through the single-node path.
pub open spec fn reachable(g: Graph, a: usize, b: usize) -> bool {
    exists|p: Seq<usize>| is_path(g, p, a, b)
}

/// Every weight of `g` is nonnegative (the frontier engine's precondition).
pub open spec fn nonneg(g: Graph) -> bool {
    forall|i: int, j: int|
        0 <= i < g.node_count() && 0 <= j < g.node_count() ==> #[trigger] g.edge(i, j) >= 0
}

/// Does a path of at most `k` edges lead from `a` to `b` in `g`?
pub open spec fn reachable_within(g: Graph, a: usize, b: usize, k: int) -> bool {
    exists|p: Seq<usize>| is_path(g, p, a, b) && p.len() <= k + 1
}

/// The total edge weight along `p`: the sum of the weights of its
/// consecutive pairs.
pub open spec fn path_cost(g: Graph, p: Seq<usize>) -> int
    decreases p.len(),
{
    if p.len() <= 1 {
        0
    } else {
        path_cost(g, p.drop_last()) + g.edge(p[p.len() - 2] as int, p[p.len() - 1] as int)
    }
}

/// Appending a node adds exactly the closing edge's weight.
pub proof fn lemma_path_cost_push(g: Graph, p: Seq<usize>, x: usize)
    requires
        p.len() >= 1,
    ensures
        path_cost(g, p.push(x)) == path_cost(g, p) + g.edge(p.last() as int, x as int),
{
    assert(p.push(x).drop_last() =~= p);
}

/// Over nonnegative weights a path never has negative total weight.
pub proof fn lemma_path_cost_nonneg(g: Graph, p: Seq<usize>)
    requires
        nonneg(g),
        forall|k: int| 0 <= k < p.len() ==> ((#[trigger] p[k]) as int) < g.node_count(),
    ensures
        path_cost(g, p) >= 0,
    decreases p.len(),
{
    if p.len() > 1 {
        lemma_path_cost_nonneg(g, p.drop_last());
        assert(g.edge(p[p.len() - 2] as int, p[p.len() - 1] as int) >= 0);
    }
}

/// Over nonnegative weights a prefix never costs more than the whole path.
pub proof fn lemma_path_cost_prefix(g: Graph, p: Seq<usize>, m: int)
    requires
        nonneg(g),
        forall|k: int| 0 <= k < p.len() ==> ((#[trigger] p[k]) as int) < g.node_count(),
        1 <= m <= p.len(),
    ensures
        path_cost(g, p.subrange(0, m)) <= path_cost(g, p),
    decreases p.len() - m,
{
    if m == p.len() {
        assert(p.subrange(0, m) =~= p);
    } else {
        lemma_path_cost_prefix(g, p, m + 1);
        assert(p.subrange(0, m + 1).drop_last() =~= p.subrange(0, m));
        assert(p.subrange(0, m + 1)[m] == p[m]);
        assert(p.subrange(0, m + 1)[m - 1] == p[m - 1]);
        assert(g.edge(p[m - 1] as int, p[m] as int) >= 0);
    }
}

/// The first edge can be split off the front of a path's total weight.
pub proof fn lemma_path_cost_drop_first(g: Graph, p: Seq<usize>)
    requires
        p.len() >= 2,
    ensures
        path_cost(g, p) == g.edge(p[0] as int, p[1] as int) + path_cost(
            g,
            p.subrange(1, p.len() as int),
        ),
    decreases p.len(),
{
    let t = p.subrange(1, p.len() as int);
    if p.len() == 2 {
        assert(p.drop_last() =~= p.subrange(0, 1));
        assert(path_cost(g, p.drop_last()) == 0);
        assert(path_cost(g, t) == 0);
    } else {
        let d = p.drop_last();
        assert(d =~= p.subrange(0, p.len() - 1));
        lemma_path_cost_drop_first(g, d);
        assert(t.drop_last() =~= d.subrange(1, d.len() as int));
        assert(path_cost(g, t) == path_cost(g, t.drop_last()) + g.edge(
            t[t.len() - 2] as int,
            t[t.len() - 1] as int,
        ));
        assert(t[t.len() - 2] == p[p.len() - 2]);
        assert(t[t.len() - 1] == p[p.len() - 1]);
    }
}

/// A path's weight splits at any interior node into the weight up to it and
/// the weight on from it.
pub proof fn lemma_path_cost_split(g: Graph, p: Seq<usize>, m: int)
    requires
        1 <= m <= p.len(),
    ensures
        path_cost(g, p) == path_cost(g, p.subrange(0, m)) + path_cost(
            g,
            p.subrange(m - 1, p.len() as int),
        ),
    decreases m,
{
    if m == 1 {
        assert(path_cost(g, p.subrange(0, 1)) == 0);
        assert(p.subrange(0, p.len() as int) =~= p);
    } else {
        lemma_path_cost_split(g, p, m - 1);
        let tail = p.subrange(m - 2, p.len() as int);
        lemma_path_cost_drop_first(g, tail);
        assert(tail[0] == p[m - 2]);
        assert(tail[1] == p[m - 1]);
        assert(tail.subrange(1, tail.len() as int) =~= p.subrange(m - 1, p.len() as int));
        let head = p.subrange(0, m);
        assert(head.drop_last() =~= p.subrange(0, m - 1));
        assert(path_cost(g, head) == path_cost(g, head.drop_last()) + g.edge(
            head[m - 2] as int,
            head[m - 1] as int,
        ));
        assert(head[m - 2] == p[m - 2] && head[m - 1] == p[m - 1]);
    }
}

/// A sequence of distinct nodes drawn from `0 .. n` cannot be longer than `n`.
pub proof fn lemma_distinct_nodes_bound(p: Seq<usize>, n: int)
    requires
        p.no_duplicates(),
        forall|k: int| 0 <= k < p.len() ==> ((#[trigger] p[k]) as int) < n,
        0 <= n,
    ensures
        p.len() <= n,
{
    let mapped = p.map_values(|x: usize| x as int);
    assert(mapped.no_duplicates()) by {
        p.lemma_no_duplicates_injective(|x: usize| x as int);
    }
    mapped.unique_seq_to_set();
    vstd::set_lib::lemma_int_range(0, n);
    assert(mapped.to_set().subset_of(vstd::set_lib::set_int_range(0, n))) by {
        assert forall|y: int|
            mapped.to_set().contains(y) implies vstd::set_lib::set_int_range(0, n).contains(
            y,
        ) by {
            let idx = choose|idx: int| 0 <= idx < mapped.len() && mapped[idx] == y;
            assert(p[idx] < n);
            assert(p.contains(p[idx]));
        }
    }
    vstd::set_lib::lemma_len_subset(mapped.to_set(), vstd::set_lib::set_int_range(0, n));
}

/// Splicing out the loop between two occurrences of one node never raises a
/// path's weight when every weight is nonnegative.
#[verifier::spinoff_prover]
proof fn lemma_splice_cost(g: Graph, p: Seq<usize>, lo: int, hi: int)
    requires
        nonneg(g),
        forall|k: int| 0 <= k < p.len() ==> ((#[trigger] p[k]) as int) < g.node_count(),
        0 <= lo < hi < p.len(),
        p[lo] == p[hi],
    ensures
        path_cost(g, p.subrange(0, lo + 1) + p.subrange(hi + 1, p.len() as int)) <= path_cost(
            g,
            p,
        ),
{
    let q = p.subrange(0, lo + 1) + p.subrange(hi + 1, p.len() as int);
    lemma_path_cost_split(g, q, lo + 1);
    lemma_path_cost_split(g, p, lo + 1);
    assert(q.subrange(0, lo + 1) =~= p.subrange(0, lo + 1));
    assert(q.subrange(lo, q.len() as int) =~= p.subrange(hi, p.len() as int)) by {
        assert forall|k: int|
            0 <= k < q.len() - lo implies q.subrange(lo, q.len() as int)[k] == p.subrange(
            hi,
            p.len() as int,
        )[k] by {
            if k == 0 {
                assert(q[lo] == p[lo]);
                assert(p[lo] == p[hi]);
            } else {
                assert(q[lo + k] == p[hi + k]);
            }
        }
    }
    let mid = p.subrange(lo, p.len() as int);
    lemma_path_cost_split(g, mid, hi - lo + 1);
    assert(mid.subrange(0, hi - lo + 1) =~= p.subrange(lo, hi + 1));
    assert(mid.subrange(hi - lo, mid.len() as int) =~= p.subrange(hi, p.len() as int));
    assert forall|k: int|
        0 <= k < p.subrange(lo, hi + 1).len() implies ((#[trigger] p.subrange(lo, hi + 1)[k])
        as int) < g.node_count() by {
        assert(p.subrange(lo, hi + 1)[k] == p[lo + k]);
    }
    lemma_path_cost_nonneg(g, p.subrange(lo, hi + 1));
}

/// Wherever some path leads, a path of at most `N - 1` edges leads too: a
/// path that repeats a node can drop the loop between the repeats, and over
/// nonnegative weights the dropped loop only ever lowered the total weight.
#[verifier::rlimit(100)]
#[verifier::spinoff_prover]
pub proof fn lemma_short_path(g: Graph, p: Seq<usize>, a: usize, b: usize)
    requires
        is_path(g, p, a, b),
    ensures
        reachable_within(g, a, b, g.node_count() - 1),
        exists|q: Seq<usize>|
            is_path(g, q, a, b) && q.len() <= g.node_count() && (!nonneg(g) || path_cost(g, q)
                <= path_cost(g, p)),
    decreases p.len(),
{
    let n = g.node_count();
    if p.no_duplicates() {
        lemma_distinct_nodes_bound(p, n);
        assert(is_path(g, p, a, b) && p.len() <= (n - 1) + 1);
        assert(is_path(g, p, a, b) && p.len() <= n && (!nonneg(g) || path_cost(g, p)
            <= path_cost(g, p)));
    } else {
        let (x, y) = choose|x: int, y: int|
            0 <= x < p.len() && 0 <= y < p.len() && x != y && p[x] == p[y];
        let lo = if x < y {
            x
        } else {
            y
        };
        let hi = if x < y {
            y
        } else {
            x
        };
        let q = p.subrange(0, lo + 1) + p.subrange(hi + 1, p.len() as int);
        assert(is_path(g, q, a, b)) by {
            assert(q.len() == p.len() - (hi - lo));
            assert(q[0] == p[0]);
            assert(q.last() == b) by {
                if hi + 1 == p.len() {
                    assert(q[q.len() - 1] == p[lo]);
                    assert(p[lo] == p[hi]);
                } else {
                    assert(q[q.len() - 1] == p[p.len() - 1]);
                }
            }
            assert forall|k: int| 0 <= k < q.len() implies ((#[trigger] q[k]) as int) < n by {
                if k <= lo {
                    assert(q[k] == p[k]);
                } else {
                    assert(q[k] == p[hi + k - lo]);
                }
            }
            assert forall|k: int|
                0 <= k < q.len() - 1 implies g.edge(#[trigger] q[k] as int, q[k + 1] as int)
                != 0 by {
                if k + 1 <= lo {
                    assert(q[k] == p[k] && q[k + 1] == p[k + 1]);
                } else if k == lo {
                    assert(q[k] == p[lo]);
                    assert(q[k + 1] == p[hi + 1]);
                    assert(p[lo] == p[hi]);
                    assert(g.edge(p[hi] as int, p[hi + 1] as int) != 0);
                } else {
                    assert(q[k] == p[hi + k - lo] && q[k + 1] == p[hi + k - lo + 1]);
                }
            }
        }
        if nonneg(g) {
            lemma_splice_cost(g, p, lo, hi);
        }
        lemma_short_path(g, q, a, b);
        let w = choose|w: Seq<usize>|
            is_path(g, w, a, b) && w.len() <= g.node_count() && (!nonneg(g) || path_cost(g, w)
                <= path_cost(g, q));
        assert(is_path(g, w, a, b) && w.len() <= g.node_count() && (!nonneg(g) || path_cost(
            g,
            w,
        ) <= path_cost(g, p)));
    }
}

impl Graph {
    /// Number of nodes; nodes are the indices `0 .. node_count()`.
    pub closed spec fn node_count(&self) -> int {
        self.rows@.len() as int
    }

    /// Weight of the directed edge `i -> j`; `0` means "no edge".
    pub closed spec fn edge(&self, i: int, j: int) -> int {
        self.rows@[i]@[j] as int
    }

    /// Well-formedness: the matrix behind the graph is admissible.
    pub closed spec fn wf(&self) -> bool {
        admissible(self.rows@.map_values(|r: Vec<i64>| r@))
    }

    /// Builds a graph from its rows; returns `None` exactly when the matrix
    /// is not square or breaks a size or weight bound.
    pub fn new(rows: Vec<Vec<i64>>) -> (r: Option<Graph>)
        ensures
            r is Some <==> admissible(rows@.map_values(|r: Vec<i64>| r@)),
            match r {
                Some(g) => {
                    &&& g.wf()
                    &&& g.node_count() == rows@.len()
                    &&& forall|i: int, j: int|
                        0 <= i < rows@.len() && 0 <= j < rows@.len() ==> g.edge(i, j)
                            == rows@[i]@[j]
                },
                None => true,
            },
    {
        let n = rows.len();
        if n > NODE_LIMIT {
            return None;
        }
        for i in 0..n
            invariant
                n == rows@.len() <= NODE_LIMIT,
                forall|k: int| 0 <= k < i ==> (#[trigger] rows@[k])@.len() == n,
                forall|k: int, j: int|
                    0 <= k < i && 0 <= j < n ==> -WEIGHT_LIMIT <= #[trigger] rows@[k]@[j]
                        <= WEIGHT_LIMIT,
        {
            if rows[i].len() != n {
                proof {
                    let m = rows@.map_values(|r: Vec<i64>| r@);
                    assert(m[i as int] == rows@[i as int]@);
                }
                return None;
            }
            for j in 0..n
                invariant
                    n == rows@.len(),
                    i < n,
                    rows@[i as int]@.len() == n,
                    forall|l: int| 0 <= l < j ==> -WEIGHT_LIMIT <= #[trigger] rows@[i as int]@[l]
                        <= WEIGHT_LIMIT,
            {
                let w = rows[i][j];
                if w < -WEIGHT_LIMIT || w > WEIGHT_LIMIT {
                    proof {
                        let m = rows@.map_values(|r: Vec<i64>| r@);
                        assert(m[i as int] == rows@[i as int]@);
                        assert(m[i as int][j as int] == rows@[i as int]@[j as int]);
                    }
                    return None;
                }
            }
        }
        let g = Graph { rows };
        proof {
            let m = g.rows@.map_values(|r: Vec<i64>| r@);
            assert forall|i: int| 0 <= i < m.len() implies (#[trigger] m[i]).len() == m.len() by {
                assert(m[i] == g.rows@[i]@);
            }
            assert forall|i: int, j: int|
                0 <= i < m.len() && 0 <= j < m.len() implies -WEIGHT_LIMIT <= #[trigger] m[i][j]
                <= WEIGHT_LIMIT by {
                assert(m[i] == g.rows@[i]@);
            }
            assert(g.wf());
        }
        Some(g)
    }

    /// What well-formedness guarantees: the node count and every weight stay
    /// within the crate's limits.
    pub proof fn lemma_wf_bounds(&self)
        requires
            self.wf(),
        ensures
            0 <= self.node_count() <= NODE_LIMIT,
            forall|i: int, j: int|
                0 <= i < self.node_count() && 0 <= j < self.node_count() ==> -WEIGHT_LIMIT
                    <= #[trigger] self.edge(i, j) <= WEIGHT_LIMIT,
    {
        let m = self.rows@.map_values(|r: Vec<i64>| r@);
        assert forall|i: int, j: int|
            0 <= i < self.node_count() && 0 <= j < self.node_count() implies -WEIGHT_LIMIT
            <= #[trigger] self.edge(i, j) <= WEIGHT_LIMIT by {
            assert(m[i] == self.rows@[i]@);
            assert(-WEIGHT_LIMIT <= m[i][j] <= WEIGHT_LIMIT);
        }
    }

    /// The node count as an executable value.
    pub fn size(&self) -> (r: usize)
        ensures
            r == self.node_count(),
    {
        self.rows.len()
    }

    /// The weight of the directed edge `i -> j` as an executable value.
    pub fn weight(&self, i: usize, j: usize) -> (r: i64)
        requires
            self.wf(),
            i < self.node_count(),
            j < self.node_count(),
        ensures
            r == self.edge(i as int, j as int),
            -WEIGHT_LIMIT <= r <= WEIGHT_LIMIT,
    {
        proof {
            let m = self.rows@.map_values(|r: Vec<i64>| r@);
            assert(m[i as int] == self.rows@[i as int]@);
            assert(-WEIGHT_LIMIT <= m[i as int][j as int] <= WEIGHT_LIMIT);
        }
        self.rows[i][j]
    }
}

} // verus!
