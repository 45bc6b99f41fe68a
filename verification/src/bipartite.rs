use vstd::prelude::*;
use std::collections::VecDeque;
use crate::graph::{Graph, valid_edges, valid_edge, linked, joins};
use vstd::set_lib::{set_int_range, lemma_int_range, lemma_len_subset};

verus! {

/// `c` gives the two ends of every edge different sides.
pub open spec fn proper_coloring(edges: Seq<(usize, usize)>, c: spec_fn(int) -> bool) -> bool {
    forall|k: int| 0 <= k < edges.len() ==> #[trigger] c(edges[k].0 as int) != c(edges[k].1 as int)
}

/// The graph admits a two-colouring: its vertices split into two sides with
/// every edge running between them.
pub open spec fn two_colorable(edges: Seq<(usize, usize)>) -> bool {
    exists|c: spec_fn(int) -> bool| #[trigger] proper_coloring(edges, c)
}

/// A proper colouring separates the ends of every pair of linked vertices.
proof fn lemma_linked_separated(edges: Seq<(usize, usize)>, c: spec_fn(int) -> bool, u: int, w: int)
    requires
        proper_coloring(edges, c),
        linked(edges, u, w),
    ensures
        c(u) != c(w),
{
    let k = choose|k: int| 0 <= k < edges.len() && #[trigger] joins(edges[k], u, w);
    assert(c(edges[k].0 as int) != c(edges[k].1 as int));
}

/// The neighbour lists: entry `u` lists the vertices linked to `u`.
fn neighbor_lists(n: usize, edges: &Vec<(usize, usize)>) -> (adj: Vec<Vec<usize>>)
    requires
        valid_edges(n as nat, edges@),
    ensures
        adj@.len() == n,
        forall|u: int, w: usize|
            0 <= u < n ==> (#[trigger] adj@[u]@.contains(w) <==> linked(edges@, u, w as int)),
        forall|u: int, j: int|
            0 <= u < n && 0 <= j < adj@[u]@.len() ==> #[trigger] adj@[u]@[j] < n,
{
    let mut adj: Vec<Vec<usize>> = Vec::new();
    let mut i: usize = 0;
    while i < n
        invariant
            i <= n,
            adj@.len() == i,
            forall|u: int| 0 <= u < i ==> #[trigger] adj@[u]@.len() == 0,
        decreases n - i,
    {
        adj.push(Vec::new());
        i = i + 1;
    }
    let m = edges.len();
    let mut k: usize = 0;
    while k < m
        invariant
            m == edges@.len(),
            valid_edges(n as nat, edges@),
            k <= m,
            adj@.len() == n,
            forall|u: int, w: usize|
                0 <= u < n ==> (#[trigger] adj@[u]@.contains(w) <==> linked(
                    edges@.take(k as int),
                    u,
                    w as int,
                )),
            forall|u: int, j: int|
                0 <= u < n && 0 <= j < adj@[u]@.len() ==> #[trigger] adj@[u]@[j] < n,
        decreases m - k,
    {
        let (a, b) = edges[k];
        assert(valid_edge(n as nat, edges@[k as int]));
        let ghost before = adj@;
        let ghost pre = edges@.take(k as int);
        let ghost post = edges@.take(k + 1);
        assert(post =~= pre.push((a, b)));
        adj[a].push(b);
        adj[b].push(a);
        assert forall|u: int, w: usize| 0 <= u < n implies (#[trigger] adj@[u]@.contains(w)
            <==> linked(post, u, w as int)) by {
            if linked(post, u, w as int) {
                let j = choose|j: int| 0 <= j < post.len() && #[trigger] joins(post[j], u, w as int);
                if j < pre.len() {
                    assert(joins(pre[j], u, w as int));
                    assert(before[u]@.contains(w));
                    let t = choose|t: int| 0 <= t < before[u]@.len() && before[u]@[t] == w;
                    assert(adj@[u]@[t] == w);
                } else {
                    if u == a {
                        assert(adj@[u]@[before[u]@.len() as int] == w);
                    } else {
                        assert(adj@[u]@[adj@[u]@.len() - 1] == w);
                    }
                }
            }
            if adj@[u]@.contains(w) {
                let t = choose|t: int| 0 <= t < adj@[u]@.len() && adj@[u]@[t] == w;
                if t < before[u]@.len() {
                    assert(before[u]@[t] == w);
                    assert(before[u]@.contains(w));
                    let j = choose|j: int| 0 <= j < pre.len() && #[trigger] joins(pre[j], u, w as int);
                    assert(joins(post[j], u, w as int));
                } else {
                    assert(joins(post[k as int], u, w as int));
                }
            }
        }
        k = k + 1;
    }
    assert(edges@.take(m as int) =~= edges@);
    adj
}

/// Linked vertices are vertices of the graph.
proof fn lemma_linked_in_range(n: nat, edges: Seq<(usize, usize)>, u: int, w: int)
    requires
        valid_edges(n, edges),
        linked(edges, u, w),
    ensures
        0 <= u < n,
        0 <= w < n,
        u != w,
{
    let k = choose|k: int| 0 <= k < edges.len() && #[trigger] joins(edges[k], u, w);
    assert(valid_edge(n, edges[k]));
}

/// Being linked does not depend on the orientation.
proof fn lemma_linked_symmetric(edges: Seq<(usize, usize)>, u: int, w: int)
    requires
        linked(edges, u, w),
    ensures
        linked(edges, w, u),
{
    let k = choose|k: int| 0 <= k < edges.len() && #[trigger] joins(edges[k], u, w);
    assert(joins(edges[k], w, u));
}

/// Vertex `x` has every neighbour coloured, on the other side, and found from
/// the same search root.
spec fn settled(edges: Seq<(usize, usize)>, col: Seq<i8>, root: Seq<int>, x: int) -> bool {
    forall|w: int|
        #[trigger] linked(edges, x, w) ==> 0 <= w < col.len() && col[w] != -1 && root[w] == root[x]
            && col[w] != col[x]
}

/// On the coloured vertices, the colouring `c` puts a vertex on the side of
/// its search root exactly when `col` does.
spec fn agrees(c: spec_fn(int) -> bool, col: Seq<i8>, root: Seq<int>) -> bool {
    forall|x: int|
        #![trigger col[x]]
        0 <= x < col.len() && col[x] != -1 ==> ((c(x) == c(root[x])) == (col[x] == col[root[x]]))
}

/// The colours of `col` are -1 (not yet coloured), 0 and 1.
spec fn colors_ok(col: Seq<i8>) -> bool {
    forall|x: int| 0 <= x < col.len() ==> #[trigger] col[x] == -1 || col[x] == 0 || col[x] == 1
}

/// Colouring the uncoloured neighbour `v` of `u` opposite to `u`, in the
/// search from `s`, keeps every settled vertex settled and keeps every
/// proper colouring in agreement.
proof fn lemma_recolor(
    edges: Seq<(usize, usize)>,
    col0: Seq<i8>,
    root0: Seq<int>,
    col: Seq<i8>,
    root: Seq<int>,
    v: int,
    u: int,
    s: int,
    done: Set<int>,
)
    requires
        0 <= v < col0.len(),
        0 <= u < col0.len(),
        0 <= s < col0.len(),
        col0.len() == root0.len(),
        colors_ok(col0),
        col0[v] == -1,
        col0[u] != -1,
        col0[s] != -1,
        root0[u] == s,
        root0[s] == s,
        s < v,
        forall|x: int| 0 <= x < col0.len() && #[trigger] col0[x] != -1 ==> 0 <= root0[x] <= s,
        linked(edges, u, v),
        col == col0.update(v, (1 - col0[u]) as i8),
        root == root0.update(v, s),
        forall|x: int|
            0 <= x < col0.len() && #[trigger] col0[x] != -1 && root0[x] < s ==> settled(
                edges,
                col0,
                root0,
                x,
            ),
        forall|x: int|
            #[trigger] done.contains(x) ==> 0 <= x < col0.len() && col0[x] != -1 && root0[x] == s
                && settled(edges, col0, root0, x),
        forall|c: spec_fn(int) -> bool|
            #[trigger] proper_coloring(edges, c) ==> agrees(c, col0, root0),
    ensures
        colors_ok(col),
        forall|x: int|
            0 <= x < col.len() && #[trigger] col[x] != -1 && root[x] < s ==> settled(
                edges,
                col,
                root,
                x,
            ),
        forall|x: int|
            #[trigger] done.contains(x) ==> 0 <= x < col.len() && col[x] != -1 && root[x] == s
                && settled(edges, col, root, x),
        forall|c: spec_fn(int) -> bool|
            #[trigger] proper_coloring(edges, c) ==> agrees(c, col, root),
{
    assert forall|x: int|
        0 <= x < col.len() && #[trigger] col[x] != -1 && root[x] < s implies settled(
        edges,
        col,
        root,
        x,
    ) by {
        assert(x != v);
        assert(col0[x] != -1);
        assert(settled(edges, col0, root0, x));
        assert forall|w: int| #[trigger] linked(edges, x, w) implies 0 <= w < col.len() && col[w] != -1 && root[w]
            == root[x] && col[w] != col[x] by {
            assert(col0[w] != -1);
        }
    }
    assert forall|x: int| #[trigger] done.contains(x) implies 0 <= x < col.len() && col[x] != -1
        && root[x] == s && settled(edges, col, root, x) by {
        assert(x != v);
        assert(settled(edges, col0, root0, x));
        assert forall|w: int| #[trigger] linked(edges, x, w) implies 0 <= w < col.len() && col[w] != -1 && root[w]
            == root[x] && col[w] != col[x] by {
            assert(col0[w] != -1);
        }
    }
    assert forall|c: spec_fn(int) -> bool| #[trigger] proper_coloring(edges, c) implies agrees(
        c,
        col,
        root,
    ) by {
        assert(agrees(c, col0, root0));
        lemma_linked_separated(edges, c, u, v);
        assert(col0[u] != -1);
        assert forall|x: int| 0 <= x < col.len() && col[x] != -1 implies ((c(x) == c(root[x])) == (
        col[x] == col[root[x]])) by {
            if x != v {
                assert(col0[x] != -1);
                assert(root0[x] <= s);
            } else {
                assert(col0[s] != -1);
                assert(col0[u] != -1);
            }
        }
    }
    assert forall|x: int| 0 <= x < col.len() implies #[trigger] col[x] == -1 || col[x] == 0
        || col[x] == 1 by {
        assert(col0[x] == -1 || col0[x] == 0 || col0[x] == 1);
        assert(col0[u] == 0 || col0[u] == 1);
    }
}

/// Two linked vertices reached from the same root with the same colour
/// rule out every proper colouring.
proof fn lemma_conflict(
    edges: Seq<(usize, usize)>,
    col: Seq<i8>,
    root: Seq<int>,
    u: int,
    v: int,
    s: int,
)
    requires
        0 <= u < col.len(),
        0 <= v < col.len(),
        col[u] != -1,
        col[v] != -1,
        col[u] == col[v],
        root[u] == s,
        0 <= root[v] <= s,
        linked(edges, u, v),
        linked(edges, v, u),
        forall|x: int|
            0 <= x < col.len() && #[trigger] col[x] != -1 && root[x] < s ==> settled(
                edges,
                col,
                root,
                x,
            ),
        forall|c: spec_fn(int) -> bool|
            #[trigger] proper_coloring(edges, c) ==> agrees(c, col, root),
    ensures
        !two_colorable(edges),
{
    if root[v] < s {
        assert(settled(edges, col, root, v));
        assert(false);
    }
    assert forall|c: spec_fn(int) -> bool| !#[trigger] proper_coloring(edges, c) by {
        if proper_coloring(edges, c) {
            assert(agrees(c, col, root));
            lemma_linked_separated(edges, c, u, v);
            assert(col[u] != -1);
            assert(col[v] != -1);
        }
    }
}

impl Graph {
    /// Whether the graph is bipartite: the vertices can be split into two
    /// sides with every edge running between them. Each component is
    /// coloured by breadth-first search; the answer is `false` as soon as an
    /// edge joins two vertices of the same colour.
    pub fn is_bipartite(&self) -> (r: bool)
        ensures
            r == two_colorable(self.edge_list()),
    {
        let n = self.n();
        let edges = self.edges();
        let adj = neighbor_lists(n, edges);
        let mut color: Vec<i8> = Vec::new();
        let mut i: usize = 0;
        while i < n
            invariant
                i <= n,
                color@.len() == i,
                forall|x: int| 0 <= x < i ==> color@[x] == -1,
            decreases n - i,
        {
            color.push(-1);
            i = i + 1;
        }
        let ghost mut root: Seq<int> = Seq::new(n as nat, |x: int| 0int);
        let mut start: usize = 0;
        while start < n
            invariant
                n == self.num_vertices(),
                edges@ == self.edge_list(),
                valid_edges(n as nat, edges@),
                adj@.len() == n,
                forall|u: int, w: usize|
                    0 <= u < n ==> (#[trigger] adj@[u]@.contains(w) <==> linked(edges@, u, w as int)),
                forall|u: int, j: int|
                    0 <= u < n && 0 <= j < adj@[u]@.len() ==> #[trigger] adj@[u]@[j] < n,
                start <= n,
                color@.len() == n,
                root.len() == n,
                colors_ok(color@),
                forall|x: int| 0 <= x < start ==> #[trigger] color@[x] != -1,
                forall|x: int| 0 <= x < n && #[trigger] color@[x] != -1 ==> 0 <= root[x] < start,
                forall|x: int|
                    0 <= x < n && #[trigger] color@[x] != -1 ==> settled(edges@, color@, root, x),
                forall|c: spec_fn(int) -> bool|
                    #[trigger] proper_coloring(edges@, c) ==> agrees(c, color@, root),
            decreases n - start,
        {
            if color[start] == -1 {
                assert forall|x: int| 0 <= x < n && #[trigger] color@[x] != -1 implies !linked(
                    edges@,
                    x,
                    start as int,
                ) by {
                    if linked(edges@, x, start as int) {
                        assert(settled(edges@, color@, root, x));
                    }
                }
                let ghost col0 = color@;
                let ghost root0 = root;
                color.set(start, 0);
                proof {
                    root = root.update(start as int, start as int);
                    assert forall|x: int|
                        0 <= x < n && #[trigger] color@[x] != -1 && root[x] < start implies settled(
                        edges@,
                        color@,
                        root,
                        x,
                    ) by {
                        assert(x != start);
                        assert(col0[x] != -1);
                        assert(settled(edges@, col0, root0, x));
                        assert forall|w: int| #[trigger] linked(edges@, x, w) implies 0 <= w < color@.len()
                            && color@[w] != -1 && root[w] == root[x] && color@[w] != color@[x] by {
                            assert(w != start);
                        }
                    }
                    assert forall|c: spec_fn(int) -> bool|
                        #[trigger] proper_coloring(edges@, c) implies agrees(c, color@, root) by {
                        assert(agrees(c, col0, root0));
                        assert forall|x: int| 0 <= x < color@.len() && color@[x] != -1 implies ((c(x)
                            == c(root[x])) == (color@[x] == color@[root[x]])) by {
                            if x != start {
                                assert(col0[x] != -1);
                                assert(root0[x] < start);
                            }
                        }
                    }
                }
                let mut queue: VecDeque<usize> = VecDeque::new();
                queue.push_back(start);
                let ghost mut done: Set<int> = Set::empty();
                assert(queue@[0] == start);
                while queue.len() > 0
                    invariant
                        n == self.num_vertices(),
                        edges@ == self.edge_list(),
                        valid_edges(n as nat, edges@),
                        adj@.len() == n,
                        forall|u: int, w: usize|
                            0 <= u < n ==> (#[trigger] adj@[u]@.contains(w) <==> linked(
                                edges@,
                                u,
                                w as int,
                            )),
                        forall|u: int, j: int|
                            0 <= u < n && 0 <= j < adj@[u]@.len() ==> #[trigger] adj@[u]@[j] < n,
                        start < n,
                        color@.len() == n,
                        root.len() == n,
                        colors_ok(color@),
                        color@[start as int] != -1,
                        root[start as int] == start,
                        forall|x: int| 0 <= x < start ==> #[trigger] color@[x] != -1,
                        forall|x: int|
                            0 <= x < n && #[trigger] color@[x] != -1 ==> 0 <= root[x] <= start,
                        forall|x: int|
                            0 <= x < n && #[trigger] color@[x] != -1 && root[x] < start ==> settled(
                                edges@,
                                color@,
                                root,
                                x,
                            ),
                        forall|x: int|
                            0 <= x < n && #[trigger] color@[x] != -1 && root[x] == start
                                ==> done.contains(x) || queue@.contains(x as usize),
                        forall|x: int|
                            #[trigger] done.contains(x) ==> 0 <= x < n && color@[x] != -1 && root[x]
                                == start && settled(edges@, color@, root, x),
                        forall|q: int|
                            0 <= q < queue@.len() ==> #[trigger] queue@[q] < n && color@[queue@[q] as int]
                                != -1 && root[queue@[q] as int] == start && !done.contains(
                                queue@[q] as int,
                            ),
                        forall|p: int, q: int|
                            0 <= p < q < queue@.len() ==> #[trigger] queue@[p] != #[trigger] queue@[q],
                        forall|c: spec_fn(int) -> bool|
                            #[trigger] proper_coloring(edges@, c) ==> agrees(c, color@, root),
                    decreases n - done.len(),
                {
                    proof {
                        lemma_int_range(0, n as int);
                        lemma_len_subset(done, set_int_range(0, n as int));
                    }
                    let ghost q0 = queue@;
                    let u = queue.pop_front().unwrap();
                    assert(u == q0[0]);
                    assert forall|q: int| 0 <= q < queue@.len() implies #[trigger] queue@[q] != u by {
                        assert(queue@[q] == q0[q + 1]);
                    }
                    assert forall|x: int|
                        0 <= x < n && #[trigger] color@[x] != -1 && root[x] == start implies done.contains(
                        x,
                    ) || queue@.contains(x as usize) || x == u by {
                        if !done.contains(x) && x != u {
                            let q = choose|q: int| 0 <= q < q0.len() && q0[q] == x as usize;
                            assert(q != 0);
                            assert(queue@[q - 1] == x as usize);
                        }
                    }
                    let row = &adj[u];
                    let ghost cu = color@[u as int];
                    let mut j: usize = 0;
                    while j < row.len()
                        invariant
                            n == self.num_vertices(),
                            edges@ == self.edge_list(),
                            valid_edges(n as nat, edges@),
                            adj@.len() == n,
                            forall|u: int, w: usize|
                                0 <= u < n ==> (#[trigger] adj@[u]@.contains(w) <==> linked(
                                    edges@,
                                    u,
                                    w as int,
                                )),
                            forall|u: int, j: int|
                                0 <= u < n && 0 <= j < adj@[u]@.len() ==> #[trigger] adj@[u]@[j]
                                    < n,
                            u < n,
                            row@ == adj@[u as int]@,
                            j <= row@.len(),
                            start < n,
                            color@.len() == n,
                            root.len() == n,
                            colors_ok(color@),
                            color@[start as int] != -1,
                            root[start as int] == start,
                            color@[u as int] == cu,
                            cu != -1,
                            root[u as int] == start,
                            !done.contains(u as int),
                            forall|x: int| 0 <= x < start ==> #[trigger] color@[x] != -1,
                            forall|x: int|
                                0 <= x < n && #[trigger] color@[x] != -1 ==> 0 <= root[x] <= start,
                            forall|x: int|
                                0 <= x < n && #[trigger] color@[x] != -1 && root[x] < start
                                    ==> settled(edges@, color@, root, x),
                            forall|x: int|
                                0 <= x < n && #[trigger] color@[x] != -1 && root[x] == start
                                    ==> done.contains(x) || queue@.contains(x as usize) || x == u,
                            forall|x: int|
                                #[trigger] done.contains(x) ==> 0 <= x < n && color@[x] != -1
                                    && root[x] == start && settled(edges@, color@, root, x),
                            forall|q: int|
                                0 <= q < queue@.len() ==> #[trigger] queue@[q] < n && color@[queue@[q] as int]
                                    != -1 && root[queue@[q] as int] == start && !done.contains(
                                    queue@[q] as int,
                                ) && queue@[q] != u,
                            forall|p: int, q: int|
                                0 <= p < q < queue@.len() ==> #[trigger] queue@[p]
                                    != #[trigger] queue@[q],
                            forall|jj: int|
                                0 <= jj < j ==> color@[#[trigger] row@[jj] as int] != -1 && root[row@[jj] as int]
                                    == start && color@[row@[jj] as int] != cu,
                            forall|c: spec_fn(int) -> bool|
                                #[trigger] proper_coloring(edges@, c) ==> agrees(c, color@, root),
                        decreases row@.len() - j,
                    {
                        let v = row[j];
                        assert(adj@[u as int]@[j as int] == v);
                        assert(adj@[u as int]@.contains(v));
                        assert(linked(edges@, u as int, v as int));
                        proof {
                            lemma_linked_in_range(n as nat, edges@, u as int, v as int);
                            lemma_linked_symmetric(edges@, u as int, v as int);
                        }
                        if color[v] == -1 {
                            let ghost col0 = color@;
                            let ghost root0 = root;
                            let ghost queue0 = queue@;
                            assert(v > start) by {
                                if v < start {
                                    assert(color@[v as int] != -1);
                                }
                            }
                            color.set(v, 1 - color[u]);
                            proof {
                                root = root.update(v as int, start as int);
                                lemma_recolor(
                                    edges@,
                                    col0,
                                    root0,
                                    color@,
                                    root,
                                    v as int,
                                    u as int,
                                    start as int,
                                    done,
                                );
                            }
                            queue.push_back(v);
                            assert forall|q: int| 0 <= q < queue@.len() implies #[trigger] queue@[q] < n
                                && color@[queue@[q] as int] != -1 && root[queue@[q] as int] == start
                                && !done.contains(queue@[q] as int) && queue@[q] != u by {
                                if q < queue0.len() {
                                    assert(queue@[q] == queue0[q]);
                                }
                            }
                            assert forall|p: int, q: int|
                                0 <= p < q < queue@.len() implies #[trigger] queue@[p]
                                != #[trigger] queue@[q] by {
                                if q == queue0.len() {
                                    assert(col0[queue0[p] as int] != -1);
                                }
                            }
                            assert forall|x: int|
                                0 <= x < n && #[trigger] color@[x] != -1 && root[x] == start
                                implies done.contains(x) || queue@.contains(x as usize) || x == u by {
                                if x == v {
                                    assert(queue@[queue0.len() as int] == v);
                                } else if queue0.contains(x as usize) {
                                    let q = choose|q: int| 0 <= q < queue0.len() && queue0[q] == x as usize;
                                    assert(queue@[q] == x as usize);
                                }
                            }
                            assert forall|jj: int| 0 <= jj < j + 1 implies color@[#[trigger] row@[jj] as int]
                                != -1 && root[row@[jj] as int] == start && color@[row@[jj] as int] != cu by {
                                if jj < j {
                                    assert(col0[row@[jj] as int] != -1);
                                }
                            }
                        } else if color[v] == color[u] {
                            proof {
                                lemma_conflict(
                                    edges@,
                                    color@,
                                    root,
                                    u as int,
                                    v as int,
                                    start as int,
                                );
                            }
                            return false;
                        }
                        j = j + 1;
                    }
                    proof {
                        assert forall|w: int| #[trigger] linked(edges@, u as int, w) implies 0 <= w < color@.len()
                            && color@[w] != -1 && root[w] == root[u as int] && color@[w] != color@[u as int] by {
                            lemma_linked_in_range(n as nat, edges@, u as int, w);
                            assert(adj@[u as int]@.contains(w as usize));
                            let jj = choose|jj: int| 0 <= jj < row@.len() && row@[jj] == w as usize;
                            assert(color@[row@[jj] as int] != -1);
                        }
                        assert(settled(edges@, color@, root, u as int));
                        done = done.insert(u as int);
                        lemma_int_range(0, n as int);
                        lemma_len_subset(done, set_int_range(0, n as int));
                    }
                    assert forall|x: int|
                        0 <= x < n && #[trigger] color@[x] != -1 && root[x] == start implies done.contains(
                        x,
                    ) || queue@.contains(x as usize) by {}
                }
            }
            start = start + 1;
        }
        proof {
            let c = |x: int| color@[x] == 1;
            assert forall|k: int| 0 <= k < edges@.len() implies #[trigger] c(edges@[k].0 as int) != c(
                edges@[k].1 as int,
            ) by {
                let a = edges@[k].0 as int;
                let b = edges@[k].1 as int;
                assert(valid_edge(n as nat, edges@[k]));
                assert(joins(edges@[k], a, b));
                assert(linked(edges@, a, b));
                assert(color@[a] != -1);
                assert(settled(edges@, color@, root, a));
                assert(color@[b] == -1 || color@[b] == 0 || color@[b] == 1);
                assert(color@[a] == -1 || color@[a] == 0 || color@[a] == 1);
            }
            assert(proper_coloring(edges@, c));
        }
        true
    }
}

} // verus!
