use vstd::prelude::*;
use crate::graph::{Graph, valid_edges, valid_edge, linked, joins, incidences};

verus! {

/// The directed arcs of an edge list: edge `k` = `(a, b)` gives arc `2k`,
/// `a -> b`, and arc `2k + 1`, `b -> a`.
pub open spec fn arc_seq(edges: Seq<(usize, usize)>) -> Seq<(usize, usize)> {
    Seq::new(
        2 * edges.len(),
        |i: int|
            if i % 2 == 0 {
                edges[i / 2]
            } else {
                (edges[i / 2].1, edges[i / 2].0)
            },
    )
}

/// Arc `f` may follow arc `e` in a non-backtracking walk: `f` starts where
/// `e` ends and does not go straight back.
pub open spec fn follows(e: (usize, usize), f: (usize, usize)) -> bool {
    e.1 == f.0 && f.1 != e.0
}

/// No two edges of the list join the same two vertices (in either
/// orientation).
pub open spec fn no_repeated_edges(edges: Seq<(usize, usize)>) -> bool {
    forall|i: int, j: int|
        #![trigger edges[i], edges[j]]
        0 <= i < j < edges.len() ==> !joins(edges[j], edges[i].0 as int, edges[i].1 as int)
}

/// The number of vertices `j < k` linked to `i`: the sum of the first `k`
/// entries of row `i` of the adjacency matrix.
pub open spec fn neighbor_count(edges: Seq<(usize, usize)>, i: int, k: nat) -> nat
    decreases k,
{
    if k == 0 {
        0
    } else {
        neighbor_count(edges, i, (k - 1) as nat) + (if linked(edges, i, k - 1) {
            1nat
        } else {
            0nat
        })
    }
}

/// The adjacency matrix is symmetric and has a zero diagonal: `i` is
/// linked to `j` exactly when `j` is linked to `i`, and no vertex is linked
/// to itself.
pub proof fn lemma_adjacency_symmetric(n: nat, edges: Seq<(usize, usize)>, i: int, j: int)
    requires
        valid_edges(n, edges),
    ensures
        linked(edges, i, j) == linked(edges, j, i),
        !linked(edges, i, i),
{
    if linked(edges, i, j) {
        let k = choose|k: int| 0 <= k < edges.len() && #[trigger] joins(edges[k], i, j);
        assert(joins(edges[k], j, i));
    }
    if linked(edges, j, i) {
        let k = choose|k: int| 0 <= k < edges.len() && #[trigger] joins(edges[k], j, i);
        assert(joins(edges[k], i, j));
    }
    if linked(edges, i, i) {
        let k = choose|k: int| 0 <= k < edges.len() && #[trigger] joins(edges[k], i, i);
        assert(valid_edge(n, edges[k]));
    }
}

/// Appending an edge `(a, b)` whose ends were not yet linked adds `b` to the
/// neighbours of `a` and `a` to the neighbours of `b`, and nothing else.
proof fn lemma_neighbor_count_push(
    pre: Seq<(usize, usize)>,
    e: (usize, usize),
    i: int,
    k: nat,
)
    requires
        e.0 != e.1,
        !linked(pre, e.0 as int, e.1 as int),
    ensures
        neighbor_count(pre.push(e), i, k) == neighbor_count(pre, i, k) + (if i == e.0 && e.1 < k {
            1nat
        } else {
            0nat
        }) + (if i == e.1 && e.0 < k {
            1nat
        } else {
            0nat
        }),
    decreases k,
{
    let post = pre.push(e);
    if k > 0 {
        lemma_neighbor_count_push(pre, e, i, (k - 1) as nat);
        let j = k - 1;
        if linked(pre, i, j) {
            let t = choose|t: int| 0 <= t < pre.len() && #[trigger] joins(pre[t], i, j);
            assert(joins(post[t], i, j));
            if joins(e, i, j) {
                assert(joins(pre[t], e.0 as int, e.1 as int));
            }
        }
        if linked(post, i, j) {
            let t = choose|t: int| 0 <= t < post.len() && #[trigger] joins(post[t], i, j);
            if t < pre.len() {
                assert(joins(pre[t], i, j));
            }
        }
        if joins(e, i, j) {
            assert(joins(post[pre.len() as int], i, j));
        }
    }
}

/// Bass's vertex form pairs the adjacency matrix with the degree matrix:
/// when no edge is repeated, row `i` of the adjacency matrix sums to the
/// degree of `i`.
pub proof fn lemma_adjacency_row_sum(n: nat, edges: Seq<(usize, usize)>, i: int)
    requires
        valid_edges(n, edges),
        no_repeated_edges(edges),
    ensures
        neighbor_count(edges, i, n) == incidences(edges, i),
    decreases edges.len(),
{
    if edges.len() == 0 {
        lemma_neighbor_count_empty(edges, i, n);
    } else {
        let pre = edges.drop_last();
        let e = edges.last();
        assert(pre.push(e) =~= edges);
        assert(valid_edge(n, edges[edges.len() - 1]));
        assert forall|k: int| 0 <= k < pre.len() implies #[trigger] valid_edge(n, pre[k]) by {
            assert(valid_edge(n, edges[k]));
        }
        assert forall|p: int, q: int| #![trigger pre[p], pre[q]] 0 <= p < q < pre.len() implies !joins(
            pre[q],
            pre[p].0 as int,
            pre[p].1 as int,
        ) by {
            assert(!joins(edges[q], edges[p].0 as int, edges[p].1 as int));
        }
        if linked(pre, e.0 as int, e.1 as int) {
            let t = choose|t: int| 0 <= t < pre.len() && #[trigger] joins(pre[t], e.0 as int, e.1 as int);
            assert(!joins(edges[edges.len() - 1], edges[t].0 as int, edges[t].1 as int));
        }
        lemma_adjacency_row_sum(n, pre, i);
        lemma_neighbor_count_push(pre, e, i, n);
    }
}

/// With no edges, no vertex has a neighbour.
proof fn lemma_neighbor_count_empty(edges: Seq<(usize, usize)>, i: int, k: nat)
    requires
        edges.len() == 0,
    ensures
        neighbor_count(edges, i, k) == 0,
    decreases k,
{
    if k > 0 {
        lemma_neighbor_count_empty(edges, i, (k - 1) as nat);
    }
}

/// The number of arcs of `arcs` that may follow the arc `e`: the sum of the
/// row of `e` in the Hashimoto matrix.
pub open spec fn successor_count(arcs: Seq<(usize, usize)>, e: (usize, usize)) -> nat
    decreases arcs.len(),
{
    if arcs.len() == 0 {
        0
    } else {
        successor_count(arcs.drop_last(), e) + (if follows(e, arcs.last()) {
            1nat
        } else {
            0nat
        })
    }
}

/// The number of edges of the list that join `x` and `y`.
pub open spec fn join_count(edges: Seq<(usize, usize)>, x: int, y: int) -> nat
    decreases edges.len(),
{
    if edges.len() == 0 {
        0
    } else {
        join_count(edges.drop_last(), x, y) + (if joins(edges.last(), x, y) {
            1nat
        } else {
            0nat
        })
    }
}

/// A walk along the Hashimoto matrix never stays on an arc and never
/// turns straight back: no arc follows itself, and the two arcs of an edge
/// never follow each other.
pub proof fn lemma_hashimoto_non_backtracking(n: nat, edges: Seq<(usize, usize)>, i: int, k: int)
    requires
        valid_edges(n, edges),
        0 <= i < arc_seq(edges).len(),
        0 <= k < edges.len(),
    ensures
        !follows(arc_seq(edges)[i], arc_seq(edges)[i]),
        !follows(arc_seq(edges)[2 * k], arc_seq(edges)[2 * k + 1]),
        !follows(arc_seq(edges)[2 * k + 1], arc_seq(edges)[2 * k]),
{
    assert(valid_edge(n, edges[i / 2]));
    assert((2 * k) / 2 == k && (2 * k + 1) / 2 == k && (2 * k) % 2 == 0 && (2 * k + 1) % 2 == 1);
}

/// The arcs of a longer list are those of the shorter one followed by the
/// two arcs of the new edge.
proof fn lemma_arc_seq_push(pre: Seq<(usize, usize)>, e: (usize, usize))
    ensures
        arc_seq(pre.push(e)) == arc_seq(pre).push(e).push((e.1, e.0)),
{
    let a = arc_seq(pre.push(e));
    let b = arc_seq(pre).push(e).push((e.1, e.0));
    assert forall|t: int| 0 <= t < a.len() implies a[t] == b[t] by {
        if t < 2 * pre.len() {
            assert(t / 2 < pre.len());
        } else {
            assert(t / 2 == pre.len());
        }
    }
    assert(a =~= b);
}

/// Counting arcs by where they start: the arcs that may follow `(x, y)`,
/// together with the edges joining `x` and `y`, are as many as the edge
/// ends at `y`.
proof fn lemma_successors_and_joins(n: nat, edges: Seq<(usize, usize)>, x: usize, y: usize)
    requires
        valid_edges(n, edges),
    ensures
        successor_count(arc_seq(edges), (x, y)) + join_count(edges, x as int, y as int)
            == incidences(edges, y as int),
    decreases edges.len(),
{
    if edges.len() == 0 {
        assert(arc_seq(edges) =~= Seq::<(usize, usize)>::empty());
    } else {
        let pre = edges.drop_last();
        let e = edges.last();
        assert(pre.push(e) =~= edges);
        assert(valid_edge(n, edges[edges.len() - 1]));
        assert forall|k: int| 0 <= k < pre.len() implies #[trigger] valid_edge(n, pre[k]) by {
            assert(valid_edge(n, edges[k]));
        }
        lemma_successors_and_joins(n, pre, x, y);
        lemma_arc_seq_push(pre, e);
        let s1 = arc_seq(pre).push(e);
        let s2 = s1.push((e.1, e.0));
        assert(s2.drop_last() =~= s1);
        assert(s1.drop_last() =~= arc_seq(pre));
        assert(s2.last() == (e.1, e.0));
        assert(s1.last() == e);
        assert(successor_count(s2, (x, y)) == successor_count(s1, (x, y)) + (if follows(
            (x, y),
            (e.1, e.0),
        ) {
            1nat
        } else {
            0nat
        }));
        assert(successor_count(s1, (x, y)) == successor_count(arc_seq(pre), (x, y)) + (if follows(
            (x, y),
            e,
        ) {
            1nat
        } else {
            0nat
        }));
        assert(successor_count(s2, (x, y)) == successor_count(arc_seq(pre), (x, y)) + (if follows(
            (x, y),
            e,
        ) {
            1nat
        } else {
            0nat
        }) + (if follows((x, y), (e.1, e.0)) {
            1nat
        } else {
            0nat
        }));
    }
}

/// An edge list without repeats has at most one edge joining two given
/// vertices, and has one when they are linked.
proof fn lemma_join_count_simple(edges: Seq<(usize, usize)>, x: int, y: int)
    requires
        no_repeated_edges(edges),
    ensures
        join_count(edges, x, y) <= 1,
        linked(edges, x, y) ==> join_count(edges, x, y) == 1,
        !linked(edges, x, y) ==> join_count(edges, x, y) == 0,
    decreases edges.len(),
{
    if edges.len() > 0 {
        let pre = edges.drop_last();
        let e = edges.last();
        assert forall|p: int, q: int| #![trigger pre[p], pre[q]] 0 <= p < q < pre.len() implies !joins(
            pre[q],
            pre[p].0 as int,
            pre[p].1 as int,
        ) by {
            assert(!joins(edges[q], edges[p].0 as int, edges[p].1 as int));
        }
        lemma_join_count_simple(pre, x, y);
        if linked(pre, x, y) {
            let t = choose|t: int| 0 <= t < pre.len() && #[trigger] joins(pre[t], x, y);
            assert(joins(edges[t], x, y));
            assert(!joins(edges[edges.len() - 1], edges[t].0 as int, edges[t].1 as int));
        }
        if linked(edges, x, y) {
            let t = choose|t: int| 0 <= t < edges.len() && #[trigger] joins(edges[t], x, y);
            if t < pre.len() {
                assert(joins(pre[t], x, y));
            }
        }
        if joins(e, x, y) {
            assert(joins(edges[edges.len() - 1], x, y));
        }
        if linked(pre, x, y) {
            let t = choose|t: int| 0 <= t < pre.len() && #[trigger] joins(pre[t], x, y);
            assert(joins(edges[t], x, y));
        }
    }
}

/// Each row of the Hashimoto matrix of a graph without repeated edges has
/// `deg(y) - 1` ones, where `y` is the head of the row's arc: the arc
/// `x -> y` may continue along every edge at `y` except the one back to `x`.
pub proof fn lemma_hashimoto_row_sum(n: nat, edges: Seq<(usize, usize)>, i: int)
    requires
        valid_edges(n, edges),
        no_repeated_edges(edges),
        0 <= i < arc_seq(edges).len(),
    ensures
        successor_count(arc_seq(edges), arc_seq(edges)[i]) + 1 == incidences(
            edges,
            arc_seq(edges)[i].1 as int,
        ),
{
    let a = arc_seq(edges)[i];
    let k = i / 2;
    if i % 2 == 0 {
        assert(joins(edges[k], a.0 as int, a.1 as int));
    } else {
        assert(joins(edges[k], a.0 as int, a.1 as int));
    }
    assert(linked(edges, a.0 as int, a.1 as int));
    lemma_join_count_simple(edges, a.0 as int, a.1 as int);
    lemma_successors_and_joins(n, edges, a.0, a.1);
}

/// The number of arcs of `arcs` that the arc `f` may follow: the sum of the
/// column of `f` in the Hashimoto matrix.
pub open spec fn predecessor_count(arcs: Seq<(usize, usize)>, f: (usize, usize)) -> nat
    decreases arcs.len(),
{
    if arcs.len() == 0 {
        0
    } else {
        predecessor_count(arcs.drop_last(), f) + (if follows(arcs.last(), f) {
            1nat
        } else {
            0nat
        })
    }
}

/// The index of the reverse of arc `t`: the other arc of the same edge.
pub open spec fn reverse_index(t: int) -> int {
    if t % 2 == 0 {
        t + 1
    } else {
        t - 1
    }
}

/// The arcs are the edges of the list in turn, each first as listed and then
/// reversed: there are twice as many arcs as edges, arc `2k` runs along edge
/// `k` and arc `2k + 1` runs back along it.
pub proof fn lemma_arcs_follow_edges(edges: Seq<(usize, usize)>, k: int)
    requires
        0 <= k < edges.len(),
    ensures
        arc_seq(edges).len() == 2 * edges.len(),
        arc_seq(edges)[2 * k] == edges[k],
        arc_seq(edges)[2 * k + 1] == (edges[k].1, edges[k].0),
{
    assert((2 * k) / 2 == k && (2 * k + 1) / 2 == k && (2 * k) % 2 == 0 && (2 * k + 1) % 2 == 1);
}

/// One step of a non-backtracking walk: arc `f` may follow arc `e` exactly
/// when `f` leaves the vertex that `e` enters and does not lead back to
/// where `e` came from; in particular the walk never stays on an arc and
/// never turns straight back.
pub proof fn lemma_follows_is_walk_step(e: (usize, usize), f: (usize, usize))
    ensures
        follows(e, f) ==> f.0 == e.1,
        follows(e, f) ==> f.1 != e.0,
        f.0 == e.1 && f.1 != e.0 ==> follows(e, f),
        e.0 != e.1 ==> !follows(e, e),
        !follows(e, (e.1, e.0)),
{
}

/// The Hashimoto matrix is symmetric up to reversing arcs: arc `j` may
/// follow arc `i` exactly when the reverse of arc `i` may follow the
/// reverse of arc `j` (`B^T = J B J`, with `J` swapping each arc with its
/// reverse).
pub proof fn lemma_hashimoto_reversal(edges: Seq<(usize, usize)>, i: int, j: int)
    requires
        0 <= i < arc_seq(edges).len(),
        0 <= j < arc_seq(edges).len(),
    ensures
        0 <= reverse_index(i) < arc_seq(edges).len(),
        arc_seq(edges)[reverse_index(i)] == (arc_seq(edges)[i].1, arc_seq(edges)[i].0),
        follows(arc_seq(edges)[i], arc_seq(edges)[j]) == follows(
            arc_seq(edges)[reverse_index(j)],
            arc_seq(edges)[reverse_index(i)],
        ),
{
    assert(reverse_index(i) / 2 == i / 2);
    assert(reverse_index(j) / 2 == j / 2);
}

/// Counting arcs by where they end: the arcs that `(w, z)` may follow,
/// together with the edges joining `w` and `z`, are as many as the edge
/// ends at `w`.
proof fn lemma_predecessors_and_joins(n: nat, edges: Seq<(usize, usize)>, w: usize, z: usize)
    requires
        valid_edges(n, edges),
    ensures
        predecessor_count(arc_seq(edges), (w, z)) + join_count(edges, w as int, z as int)
            == incidences(edges, w as int),
    decreases edges.len(),
{
    if edges.len() == 0 {
        assert(arc_seq(edges) =~= Seq::<(usize, usize)>::empty());
    } else {
        let pre = edges.drop_last();
        let e = edges.last();
        assert(pre.push(e) =~= edges);
        assert(valid_edge(n, edges[edges.len() - 1]));
        assert forall|k: int| 0 <= k < pre.len() implies #[trigger] valid_edge(n, pre[k]) by {
            assert(valid_edge(n, edges[k]));
        }
        lemma_predecessors_and_joins(n, pre, w, z);
        lemma_arc_seq_push(pre, e);
        let s1 = arc_seq(pre).push(e);
        let s2 = s1.push((e.1, e.0));
        assert(s2.drop_last() =~= s1);
        assert(s1.drop_last() =~= arc_seq(pre));
        assert(s2.last() == (e.1, e.0));
        assert(s1.last() == e);
        assert(predecessor_count(s2, (w, z)) == predecessor_count(s1, (w, z)) + (if follows(
            (e.1, e.0),
            (w, z),
        ) {
            1nat
        } else {
            0nat
        }));
        assert(predecessor_count(s1, (w, z)) == predecessor_count(arc_seq(pre), (w, z)) + (
        if follows(e, (w, z)) {
            1nat
        } else {
            0nat
        }));
    }
}

/// Each column of the Hashimoto matrix of a graph without repeated edges
/// has `deg(w) - 1` ones, where `w` is the tail of the column's arc: the arc
/// `w -> z` may be reached along every edge into `w` except the one from
/// `z`.
pub proof fn lemma_hashimoto_column_sum(n: nat, edges: Seq<(usize, usize)>, j: int)
    requires
        valid_edges(n, edges),
        no_repeated_edges(edges),
        0 <= j < arc_seq(edges).len(),
    ensures
        predecessor_count(arc_seq(edges), arc_seq(edges)[j]) + 1 == incidences(
            edges,
            arc_seq(edges)[j].0 as int,
        ),
{
    let f = arc_seq(edges)[j];
    let k = j / 2;
    assert(joins(edges[k], f.0 as int, f.1 as int));
    assert(linked(edges, f.0 as int, f.1 as int));
    lemma_join_count_simple(edges, f.0 as int, f.1 as int);
    lemma_predecessors_and_joins(n, edges, f.0, f.1);
}

impl Graph {
    /// The adjacency matrix: entry `(i, j)` is 1 when an edge joins `i` and
    /// `j`, and 0 otherwise.
    pub fn adjacency(&self) -> (a: Vec<Vec<u8>>)
        ensures
            a@.len() == self.num_vertices(),
            forall|i: int| 0 <= i < a@.len() ==> #[trigger] a@[i]@.len() == self.num_vertices(),
            forall|i: int, j: int|
                0 <= i < a@.len() && 0 <= j < a@.len() ==> #[trigger] a@[i]@[j] == (if linked(
                    self.edge_list(),
                    i,
                    j,
                ) {
                    1u8
                } else {
                    0u8
                }),
    {
        let n = self.n();
        let edges = self.edges();
        let mut a: Vec<Vec<u8>> = Vec::new();
        let mut i: usize = 0;
        while i < n
            invariant
                i <= n,
                a@.len() == i,
                forall|r: int| 0 <= r < i ==> #[trigger] a@[r]@.len() == n,
                forall|r: int, j: int| 0 <= r < i && 0 <= j < n ==> #[trigger] a@[r]@[j] == 0u8,
            decreases n - i,
        {
            let mut row: Vec<u8> = Vec::new();
            let mut j: usize = 0;
            while j < n
                invariant
                    j <= n,
                    row@.len() == j,
                    forall|c: int| 0 <= c < j ==> #[trigger] row@[c] == 0u8,
                decreases n - j,
            {
                row.push(0);
                j = j + 1;
            }
            a.push(row);
            i = i + 1;
        }
        let m = edges.len();
        let mut k: usize = 0;
        while k < m
            invariant
                m == edges@.len(),
                n == self.num_vertices(),
                edges@ == self.edge_list(),
                valid_edges(n as nat, edges@),
                k <= m,
                a@.len() == n,
                forall|r: int| 0 <= r < n ==> #[trigger] a@[r]@.len() == n,
                forall|r: int, c: int|
                    0 <= r < n && 0 <= c < n ==> #[trigger] a@[r]@[c] == (if linked(
                        edges@.take(k as int),
                        r,
                        c,
                    ) {
                        1u8
                    } else {
                        0u8
                    }),
            decreases m - k,
        {
            let (x, y) = edges[k];
            assert(valid_edge(n as nat, edges@[k as int]));
            let ghost pre = edges@.take(k as int);
            let ghost post = edges@.take(k + 1);
            assert(post =~= pre.push((x, y)));
            a[x].set(y, 1);
            a[y].set(x, 1);
            assert forall|r: int, c: int| 0 <= r < n && 0 <= c < n implies #[trigger] a@[r]@[c] == (
            if linked(post, r, c) {
                1u8
            } else {
                0u8
            }) by {
                if linked(pre, r, c) {
                    let t = choose|t: int| 0 <= t < pre.len() && #[trigger] joins(pre[t], r, c);
                    assert(joins(post[t], r, c));
                }
                if linked(post, r, c) {
                    let t = choose|t: int| 0 <= t < post.len() && #[trigger] joins(post[t], r, c);
                    if t < pre.len() {
                        assert(joins(pre[t], r, c));
                    }
                }
                if joins(post[k as int], r, c) {
                    assert(linked(post, r, c));
                }
            }
            k = k + 1;
        }
        assert(edges@.take(m as int) =~= edges@);
        a
    }

    /// The directed arcs: each edge `(a, b)` in turn gives `a -> b` and then
    /// `b -> a`.
    pub fn arcs(&self) -> (r: Vec<(usize, usize)>)
        ensures
            r@ == arc_seq(self.edge_list()),
    {
        let edges = self.edges();
        let m = edges.len();
        let mut r: Vec<(usize, usize)> = Vec::new();
        let mut k: usize = 0;
        while k < m
            invariant
                m == edges@.len(),
                edges@ == self.edge_list(),
                k <= m,
                r@ =~= arc_seq(edges@.take(k as int)),
            decreases m - k,
        {
            let (x, y) = edges[k];
            r.push((x, y));
            r.push((y, x));
            k = k + 1;
            assert(r@ =~= arc_seq(edges@.take(k as int)));
        }
        assert(edges@.take(m as int) =~= edges@);
        r
    }

    /// The Hashimoto (non-backtracking) matrix over the arcs of `arcs`:
    /// entry `(i, j)` is 1 when arc `j` may follow arc `i` without
    /// reversing it, and 0 otherwise.
    pub fn hashimoto_matrix(&self) -> (b: Vec<Vec<u8>>)
        ensures
            b@.len() == arc_seq(self.edge_list()).len(),
            forall|i: int| 0 <= i < b@.len() ==> #[trigger] b@[i]@.len() == b@.len(),
            forall|i: int, j: int|
                0 <= i < b@.len() && 0 <= j < b@.len() ==> #[trigger] b@[i]@[j] == (if follows(
                    arc_seq(self.edge_list())[i],
                    arc_seq(self.edge_list())[j],
                ) {
                    1u8
                } else {
                    0u8
                }),
            forall|i: int, j: int|
                0 <= i < b@.len() && 0 <= j < b@.len() ==> (#[trigger] b@[i]@[j] == 1u8 <==> (
                arc_seq(self.edge_list())[j].0 == arc_seq(self.edge_list())[i].1 && arc_seq(
                    self.edge_list(),
                )[j].1 != arc_seq(self.edge_list())[i].0)),
            forall|i: int, j: int|
                0 <= i < b@.len() && 0 <= j < b@.len() ==> (#[trigger] b@[i]@[j] == 0u8 || b@[i]@[j]
                    == 1u8),
    {
        let arcs = self.arcs();
        let ghost s = arc_seq(self.edge_list());
        let m2 = arcs.len();
        let mut b: Vec<Vec<u8>> = Vec::new();
        let mut i: usize = 0;
        while i < m2
            invariant
                arcs@ == s,
                m2 == s.len(),
                i <= m2,
                b@.len() == i,
                forall|r: int| 0 <= r < i ==> #[trigger] b@[r]@.len() == m2,
                forall|r: int, c: int|
                    0 <= r < i && 0 <= c < m2 ==> #[trigger] b@[r]@[c] == (if follows(s[r], s[c]) {
                        1u8
                    } else {
                        0u8
                    }),
            decreases m2 - i,
        {
            let (x, y) = arcs[i];
            let mut row: Vec<u8> = Vec::new();
            let mut j: usize = 0;
            while j < m2
                invariant
                    arcs@ == s,
                    m2 == s.len(),
                    i < m2,
                    (x, y) == s[i as int],
                    j <= m2,
                    row@.len() == j,
                    forall|c: int|
                        0 <= c < j ==> #[trigger] row@[c] == (if follows(s[i as int], s[c]) {
                            1u8
                        } else {
                            0u8
                        }),
                decreases m2 - j,
            {
                let (w, z) = arcs[j];
                if y == w && z != x {
                    row.push(1);
                } else {
                    row.push(0);
                }
                j = j + 1;
            }
            b.push(row);
            i = i + 1;
        }
        b
    }
}

} // verus!
