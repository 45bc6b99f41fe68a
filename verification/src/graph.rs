use vstd::prelude::*;

verus! {

/// An edge `(u, v)` is valid in a graph on `n` vertices when both ends are
/// vertices and it is not a loop.
pub open spec fn valid_edge(n: nat, e: (usize, usize)) -> bool {
    e.0 < n && e.1 < n && e.0 != e.1
}

/// Every edge of the list is valid.
pub open spec fn valid_edges(n: nat, edges: Seq<(usize, usize)>) -> bool {
    forall|k: int| 0 <= k < edges.len() ==> #[trigger] valid_edge(n, edges[k])
}

/// The number of edge ends at vertex `v`: each edge `(a, b)` counts once for
/// `a` and once for `b`.
pub open spec fn incidences(edges: Seq<(usize, usize)>, v: int) -> nat
    decreases edges.len(),
{
    if edges.len() == 0 {
        0
    } else {
        let e = edges.last();
        incidences(edges.drop_last(), v) + (if e.0 == v { 1nat } else { 0nat }) + (if e.1 == v {
            1nat
        } else {
            0nat
        })
    }
}

/// Some edge of the list joins `u` and `w`, in either orientation.
pub open spec fn linked(edges: Seq<(usize, usize)>, u: int, w: int) -> bool {
    exists|k: int|
        0 <= k < edges.len() && #[trigger] joins(edges[k], u, w)
}

/// The edge `e` has ends `u` and `w`, in either orientation.
pub open spec fn joins(e: (usize, usize), u: int, w: int) -> bool {
    (e.0 == u && e.1 == w) || (e.0 == w && e.1 == u)
}

/// The sum of `incidences(edges, v)` over the vertices `v < n`.
pub open spec fn degree_sum(edges: Seq<(usize, usize)>, n: nat) -> nat
    decreases n,
{
    if n == 0 {
        0
    } else {
        degree_sum(edges, (n - 1) as nat) + incidences(edges, n - 1)
    }
}

/// The common degree of a graph on `n > 0` vertices whose vertices all have
/// the degree of vertex 0, and `None` otherwise.
pub open spec fn regular_degree(n: nat, edges: Seq<(usize, usize)>) -> Option<nat> {
    if forall|v: int| 0 <= v < n ==> #[trigger] incidences(edges, v) == incidences(edges, 0) {
        Some(incidences(edges, 0))
    } else {
        None
    }
}

/// Appending one edge `e` to the list adds one incidence at each of its ends.
proof fn lemma_degree_sum_push(edges: Seq<(usize, usize)>, e: (usize, usize), k: nat)
    ensures
        degree_sum(edges.push(e), k) == degree_sum(edges, k) + (if e.0 < k { 1nat } else { 0nat })
            + (if e.1 < k { 1nat } else { 0nat }),
    decreases k,
{
    assert(edges.push(e).drop_last() =~= edges);
    if k > 0 {
        lemma_degree_sum_push(edges, e, (k - 1) as nat);
    }
}

/// Handshake lemma: in a graph on `n` vertices, the degrees of all vertices
/// add up to twice the number of edges.
pub proof fn lemma_handshake(n: nat, edges: Seq<(usize, usize)>)
    requires
        valid_edges(n, edges),
    ensures
        degree_sum(edges, n) == 2 * edges.len(),
    decreases edges.len(),
{
    if edges.len() == 0 {
        lemma_degree_sum_empty(edges, n);
    } else {
        let rest = edges.drop_last();
        let e = edges.last();
        assert(valid_edge(n, edges[edges.len() - 1]));
        assert forall|k: int| 0 <= k < rest.len() implies #[trigger] valid_edge(n, rest[k]) by {
            assert(valid_edge(n, edges[k]));
        }
        lemma_handshake(n, rest);
        assert(rest.push(e) =~= edges);
        lemma_degree_sum_push(rest, e, n);
    }
}

/// With no edges, every degree is zero.
proof fn lemma_degree_sum_empty(edges: Seq<(usize, usize)>, k: nat)
    requires
        edges.len() == 0,
    ensures
        degree_sum(edges, k) == 0,
    decreases k,
{
    if k > 0 {
        lemma_degree_sum_empty(edges, (k - 1) as nat);
    }
}

/// When the first `k` vertices all have degree `d`, their degrees add up
/// to `k * d`.
proof fn lemma_degree_sum_constant(edges: Seq<(usize, usize)>, k: nat, d: nat)
    requires
        forall|v: int| 0 <= v < k ==> #[trigger] incidences(edges, v) == d,
    ensures
        degree_sum(edges, k) == k * d,
    decreases k,
{
    if k > 0 {
        lemma_degree_sum_constant(edges, (k - 1) as nat, d);
        assert(incidences(edges, k - 1) == d);
        assert((k - 1) * d + d == k * d) by (nonlinear_arith);
    } else {
        assert(k * d == 0) by (nonlinear_arith)
            requires
                k == 0,
        ;
    }
}

/// A `d`-regular graph on `n` vertices has `n * d / 2` edges: `n * d` is
/// twice the number of edges.
pub proof fn lemma_regular_edge_count(n: nat, edges: Seq<(usize, usize)>, d: nat)
    requires
        valid_edges(n, edges),
        regular_degree(n, edges) == Some(d),
    ensures
        n * d == 2 * edges.len(),
{
    lemma_handshake(n, edges);
    lemma_degree_sum_constant(edges, n, d);
}

/// An undirected graph on the vertices `0..n`, given by its list of edges.
/// Every edge joins two distinct vertices; the list may repeat an edge.
pub struct Graph {
    n: usize,
    edges: Vec<(usize, usize)>,
}

impl Graph {
    #[verifier::type_invariant]
    spec fn well_formed(self) -> bool {
        valid_edges(self.n as nat, self.edges@)
    }

    /// The number of vertices.
    pub closed spec fn num_vertices(self) -> nat {
        self.n as nat
    }

    /// The edge list.
    pub closed spec fn edge_list(self) -> Seq<(usize, usize)> {
        self.edges@
    }

    /// Builds the graph on `n` vertices with the given edges; every edge
    /// must join two distinct vertices below `n`.
    pub fn new(n: usize, edges: Vec<(usize, usize)>) -> (g: Graph)
        requires
            valid_edges(n as nat, edges@),
        ensures
            g.num_vertices() == n,
            g.edge_list() == edges@,
    {
        Graph { n, edges }
    }

    /// The number of vertices.
    pub fn n(&self) -> (r: usize)
        ensures
            r == self.num_vertices(),
    {
        self.n
    }

    /// The edge list; each edge is valid.
    pub fn edges(&self) -> (r: &Vec<(usize, usize)>)
        ensures
            r@ == self.edge_list(),
            valid_edges(self.num_vertices(), r@),
    {
        proof {
            use_type_invariant(self);
        }
        &self.edges
    }

    /// The degree of every vertex: entry `v` counts the edge ends at `v`.
    pub fn degrees(&self) -> (d: Vec<usize>)
        ensures
            d@.len() == self.num_vertices(),
            forall|v: int| 0 <= v < d@.len() ==> d@[v] == incidences(self.edge_list(), v),
    {
        let n = self.n();
        let edges = self.edges();
        let mut d: Vec<usize> = Vec::new();
        let mut i: usize = 0;
        while i < n
            invariant
                i <= n,
                d@.len() == i,
                forall|v: int| 0 <= v < i ==> d@[v] == 0,
            decreases n - i,
        {
            d.push(0);
            i = i + 1;
        }
        let m = edges.len();
        let mut k: usize = 0;
        while k < m
            invariant
                m == edges@.len(),
                n == self.num_vertices(),
                edges@ == self.edge_list(),
                valid_edges(n as nat, edges@),
                k <= m,
                d@.len() == n,
                forall|v: int| 0 <= v < n ==> d@[v] == incidences(edges@.take(k as int), v),
                forall|v: int| 0 <= v < n ==> d@[v] <= k,
            decreases m - k,
        {
            let (a, b) = edges[k];
            assert(valid_edge(n as nat, edges@[k as int]));
            assert(edges@.take(k + 1).drop_last() =~= edges@.take(k as int));
            d[a] = d[a] + 1;
            d[b] = d[b] + 1;
            k = k + 1;
        }
        assert(edges@.take(m as int) =~= edges@);
        d
    }

    /// `Some(d)` when every vertex has degree `d`, `None` when two degrees
    /// differ. The graph must have a vertex.
    pub fn is_regular(&self) -> (r: Option<usize>)
        requires
            self.num_vertices() > 0,
        ensures
            r matches Some(d) ==> regular_degree(self.num_vertices(), self.edge_list()) == Some(
                d as nat,
            ),
            r is None ==> regular_degree(self.num_vertices(), self.edge_list()) is None,
    {
        let d = self.degrees();
        let first = d[0];
        let mut i: usize = 0;
        while i < d.len()
            invariant
                d@.len() == self.num_vertices(),
                forall|v: int| 0 <= v < d@.len() ==> d@[v] == incidences(self.edge_list(), v),
                first == d@[0],
                i <= d@.len(),
                forall|v: int| 0 <= v < i ==> d@[v] == first,
            decreases d@.len() - i,
        {
            if d[i] != first {
                assert(incidences(self.edge_list(), i as int) != incidences(self.edge_list(), 0));
                return None;
            }
            i = i + 1;
        }
        assert forall|v: int| 0 <= v < self.num_vertices() implies #[trigger] incidences(
            self.edge_list(),
            v,
        ) == incidences(self.edge_list(), 0) by {
            assert(d@[v] == first);
        }
        Some(first)
    }

    /// The cycle rank (first Betti number) `m - n + 1`, where `m` is the
    /// number of edges.
    pub fn betti_number(&self) -> (r: i64)
        requires
            self.edge_list().len() < i64::MAX,
            self.num_vertices() <= i64::MAX,
        ensures
            r == self.edge_list().len() - self.num_vertices() + 1,
    {
        self.edges().len() as i64 - self.n() as i64 + 1
    }
}

} // verus!
