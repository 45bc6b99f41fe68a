use vstd::prelude::*;
use crate::graph::{Graph, valid_edges, valid_edge, incidences, regular_degree};
use crate::bipartite::{two_colorable, proper_coloring};
use vstd::set_lib::{set_int_range, lemma_int_range, lemma_map_size};

verus! {

/// `a` comes strictly before `b` in lexicographic order.
pub open spec fn lex_lt(a: (usize, usize), b: (usize, usize)) -> bool {
    a.0 < b.0 || (a.0 == b.0 && a.1 < b.1)
}

/// The list is strictly increasing in lexicographic order (so it repeats no
/// pair).
pub open spec fn strictly_sorted(s: Seq<(usize, usize)>) -> bool {
    forall|i: int, j: int| 0 <= i < j < s.len() ==> lex_lt(#[trigger] s[i], #[trigger] s[j])
}

/// Lexicographic comparison of two pairs.
fn lex_less(a: (usize, usize), b: (usize, usize)) -> (r: bool)
    ensures
        r == lex_lt(a, b),
{
    a.0 < b.0 || (a.0 == b.0 && a.1 < b.1)
}

/// The pairs of `v`, sorted in increasing lexicographic order with repeats
/// removed.
fn sort_dedup(v: Vec<(usize, usize)>) -> (out: Vec<(usize, usize)>)
    ensures
        strictly_sorted(out@),
        forall|e: (usize, usize)| #[trigger] out@.contains(e) <==> v@.contains(e),
{
    let mut out: Vec<(usize, usize)> = Vec::new();
    let mut k: usize = 0;
    while k < v.len()
        invariant
            k <= v@.len(),
            strictly_sorted(out@),
            forall|e: (usize, usize)| #[trigger] out@.contains(e) <==> v@.take(k as int).contains(e),
        decreases v@.len() - k,
    {
        let x = v[k];
        let mut p: usize = 0;
        while p < out.len() && lex_less(out[p], x)
            invariant
                p <= out@.len(),
                forall|t: int| 0 <= t < p ==> lex_lt(#[trigger] out@[t], x),
            decreases out@.len() - p,
        {
            p = p + 1;
        }
        let ghost before = out@;
        let ghost pre = v@.take(k as int);
        let ghost post = v@.take(k + 1);
        assert(post =~= pre.push(x));
        if p < out.len() && out[p].0 == x.0 && out[p].1 == x.1 {
            assert forall|e: (usize, usize)| #[trigger] out@.contains(e) <==> post.contains(e) by {
                if post.contains(e) && e == x {
                    assert(out@[p as int] == x);
                }
                if pre.contains(e) {
                    let t = choose|t: int| 0 <= t < pre.len() && pre[t] == e;
                    assert(post[t] == e);
                }
                if post.contains(e) && e != x {
                    let t = choose|t: int| 0 <= t < post.len() && post[t] == e;
                    assert(pre[t] == e);
                }
            }
        } else {
            out.insert(p, x);
            assert(out@ =~= before.insert(p as int, x));
            assert forall|i: int, j: int| 0 <= i < j < out@.len() implies lex_lt(
                #[trigger] out@[i],
                #[trigger] out@[j],
            ) by {
                if p < before.len() {
                    assert(lex_lt(x, before[p as int]));
                }
                if j < p {
                    assert(lex_lt(before[i], before[j]));
                } else if j == p {
                } else if i < p {
                    assert(lex_lt(before[i], x));
                    if j - 1 > p {
                        assert(lex_lt(before[p as int], before[j - 1]));
                    }
                } else if i == p {
                    if j - 1 > p {
                        assert(lex_lt(before[p as int], before[j - 1]));
                    }
                } else {
                    assert(lex_lt(before[i - 1], before[j - 1]));
                }
            }
            assert forall|e: (usize, usize)| #[trigger] out@.contains(e) <==> post.contains(e) by {
                if out@.contains(e) {
                    let t = choose|t: int| 0 <= t < out@.len() && out@[t] == e;
                    if t < p {
                        assert(before[t] == e);
                    } else if t > p {
                        assert(before[t - 1] == e);
                    }
                    if e != x {
                        assert(before.contains(e));
                        let s = choose|s: int| 0 <= s < pre.len() && pre[s] == e;
                        assert(post[s] == e);
                    } else {
                        assert(post[k as int] == e);
                    }
                }
                if post.contains(e) {
                    let s = choose|s: int| 0 <= s < post.len() && post[s] == e;
                    if s < k {
                        assert(pre[s] == e);
                        assert(before.contains(e));
                        let t = choose|t: int| 0 <= t < before.len() && before[t] == e;
                        if t < p {
                            assert(out@[t] == e);
                        } else {
                            assert(out@[t + 1] == e);
                        }
                    } else {
                        assert(out@[p as int] == e);
                    }
                }
            }
        }
        k = k + 1;
    }
    assert(v@.take(v@.len() as int) =~= v@);
    out
}

/// Edge `i` of the cycle on `n` vertices: `i` joined to `(i + 1) % n`,
/// smaller end first.
pub open spec fn cycle_edge(n: nat, i: int) -> (usize, usize) {
    let a = i;
    let b = (i + 1) % (n as int);
    if a < b {
        (a as usize, b as usize)
    } else {
        (b as usize, a as usize)
    }
}

/// The edges of the cycle on `n` vertices, edge `i` being `cycle_edge(n, i)`.
pub open spec fn cycle_edges(n: nat) -> Seq<(usize, usize)> {
    Seq::new(n, |i: int| cycle_edge(n, i))
}

/// Edge `i < n` of the cycle is `(i, i + 1)`, except the closing edge
/// `(0, n - 1)`.
proof fn lemma_cycle_edge_ends(n: usize, i: int)
    requires
        n >= 2,
        0 <= i < n,
    ensures
        cycle_edge(n as nat, i) == (if i + 1 < n {
            (i as usize, (i + 1) as usize)
        } else {
            (0usize, (n - 1) as usize)
        }),
{
    if i + 1 < n {
        vstd::arithmetic::div_mod::lemma_small_mod((i + 1) as nat, n as nat);
    } else {
        vstd::arithmetic::div_mod::lemma_mod_self_0(n as int);
    }
}

/// In the first `k` edges of the cycle, vertex `v` is an end of edge `v`
/// and of the edge before it, `v - 1` (or `n - 1` for `v = 0`).
proof fn lemma_cycle_incidences_prefix(n: usize, v: int, k: int)
    requires
        n >= 2,
        0 <= v < n,
        0 <= k <= n,
    ensures
        incidences(cycle_edges(n as nat).take(k), v) == (if v < k {
            1nat
        } else {
            0nat
        }) + (if (if v == 0 {
            n - 1
        } else {
            v - 1
        }) < k {
            1nat
        } else {
            0nat
        }),
    decreases k,
{
    let s = cycle_edges(n as nat);
    if k == 0 {
        assert(s.take(0) =~= Seq::<(usize, usize)>::empty());
    } else {
        lemma_cycle_incidences_prefix(n, v, k - 1);
        assert(s.take(k).drop_last() =~= s.take(k - 1));
        assert(s.take(k).last() == s[k - 1]);
        lemma_cycle_edge_ends(n, k - 1);
    }
}

/// The cycle `C_n` with `n >= 2` is 2-regular.
pub proof fn lemma_cycle_regular(n: usize)
    requires
        n >= 2,
    ensures
        regular_degree(n as nat, cycle_edges(n as nat)) == Some(2nat),
{
    let s = cycle_edges(n as nat);
    assert(s.take(n as int) =~= s);
    assert forall|v: int| 0 <= v < n implies #[trigger] incidences(s, v) == 2 by {
        lemma_cycle_incidences_prefix(n, v, n as int);
    }
    assert(incidences(s, 0) == 2);
}

/// The cycle `C_n` (`n != 1`) is bipartite exactly when `n` is even.
pub proof fn lemma_cycle_bipartite(n: usize)
    requires
        n != 1,
    ensures
        two_colorable(cycle_edges(n as nat)) == (n % 2 == 0),
{
    let s = cycle_edges(n as nat);
    if n == 0 {
        assert(proper_coloring(s, |x: int| x % 2 == 0));
    } else if n % 2 == 0 {
        let c = |x: int| x % 2 == 0;
        assert forall|k: int| 0 <= k < s.len() implies #[trigger] c(s[k].0 as int) != c(
            s[k].1 as int,
        ) by {
            lemma_cycle_edge_ends(n, k);
        }
        assert(proper_coloring(s, c));
    } else {
        assert forall|c: spec_fn(int) -> bool| !#[trigger] proper_coloring(s, c) by {
            if proper_coloring(s, c) {
                lemma_cycle_alternates(n, c, n - 1);
                lemma_cycle_edge_ends(n, n - 1);
                assert(c(s[n - 1].0 as int) != c(s[n - 1].1 as int));
            }
        }
    }
}

/// A proper colouring of the cycle alternates along `0, 1, ..., k`.
proof fn lemma_cycle_alternates(n: usize, c: spec_fn(int) -> bool, k: int)
    requires
        n >= 2,
        0 <= k < n,
        proper_coloring(cycle_edges(n as nat), c),
    ensures
        c(k) == (if k % 2 == 0 {
            c(0)
        } else {
            !c(0)
        }),
    decreases k,
{
    if k > 0 {
        lemma_cycle_alternates(n, c, k - 1);
        lemma_cycle_edge_ends(n, k - 1);
        let s = cycle_edges(n as nat);
        assert(c(s[k - 1].0 as int) != c(s[k - 1].1 as int));
    }
}

/// The cycle `C_n`: vertex `i` is joined to `(i + 1) % n`, for each `i` in
/// turn, with the smaller end first. For `n = 2` both edges join 0 and 1;
/// `n = 1` would give a loop and is excluded.
pub fn cycle_graph(n: usize) -> (g: Graph)
    requires
        n != 1,
    ensures
        g.num_vertices() == n,
        g.edge_list() == cycle_edges(n as nat),
{
    let mut edges: Vec<(usize, usize)> = Vec::new();
    let mut i: usize = 0;
    while i < n
        invariant
            n != 1,
            i <= n,
            edges@.len() == i,
            forall|k: int| 0 <= k < i ==> #[trigger] edges@[k] == cycle_edge(n as nat, k),
            valid_edges(n as nat, edges@),
        decreases n - i,
    {
        let a = i;
        let b = (i + 1) % n;
        proof {
            if i + 1 < n {
                vstd::arithmetic::div_mod::lemma_small_mod((i + 1) as nat, n as nat);
            } else {
                vstd::arithmetic::div_mod::lemma_mod_self_0(n as int);
            }
        }
        assert(b == if i + 1 < n { i + 1 } else { 0 });
        if a < b {
            edges.push((a, b));
        } else {
            edges.push((b, a));
        }
        i = i + 1;
        assert(valid_edge(n as nat, edges@[i - 1]));
    }
    assert(edges@ =~= cycle_edges(n as nat));
    Graph::new(n, edges)
}

/// Row `r` of the complete graph's edge list: `(r, r + 1), ..., (r, n - 1)`.
pub open spec fn complete_row(r: nat, n: nat) -> Seq<(usize, usize)> {
    Seq::new((n - r - 1) as nat, |t: int| (r as usize, (r + 1 + t) as usize))
}

/// Rows `0..k` of the complete graph's edge list, one after the other.
pub open spec fn complete_rows(k: nat, n: nat) -> Seq<(usize, usize)>
    decreases k,
{
    if k == 0 {
        Seq::empty()
    } else {
        complete_rows((k - 1) as nat, n) + complete_row((k - 1) as nat, n)
    }
}

/// The first `t` pairs of row `r` have `v` as an end `t` times when `v` is
/// the row's vertex, once when `v` is among their second ends, and
/// otherwise never.
proof fn lemma_complete_row_incidences(r: nat, n: nat, v: int, t: int)
    requires
        r < n <= usize::MAX,
        0 <= t <= n - r - 1,
    ensures
        incidences(complete_row(r, n).take(t), v) == (if r == v {
            t as nat
        } else {
            0nat
        }) + (if r < v && v - r - 1 < t {
            1nat
        } else {
            0nat
        }),
    decreases t,
{
    let s = complete_row(r, n);
    if t == 0 {
        assert(s.take(0) =~= Seq::<(usize, usize)>::empty());
    } else {
        lemma_complete_row_incidences(r, n, v, t - 1);
        assert(s.take(t).drop_last() =~= s.take(t - 1));
        assert(s.take(t).last() == s[t - 1]);
    }
}

/// The first `k` rows of the complete graph on `n` vertices give vertex
/// `v` its `n - v - 1` larger neighbours (once row `v` is in) and its
/// smaller neighbours below `k`.
proof fn lemma_complete_rows_incidences(k: nat, n: nat, v: int)
    requires
        k <= n <= usize::MAX,
        0 <= v < n,
    ensures
        incidences(complete_rows(k, n), v) == (if v < k {
            (n - v - 1) as nat
        } else {
            0nat
        }) + (if v < k {
            v as nat
        } else {
            k
        }),
    decreases k,
{
    if k > 0 {
        let r = (k - 1) as nat;
        lemma_complete_rows_incidences(r, n, v);
        lemma_incidences_concat(complete_rows(r, n), complete_row(r, n), v);
        lemma_complete_row_incidences(r, n, v, n - r - 1);
        assert(complete_row(r, n).take(n - r - 1) =~= complete_row(r, n));
    }
}

/// Edge ends add up over the two halves of a concatenated list.
proof fn lemma_incidences_concat(a: Seq<(usize, usize)>, b: Seq<(usize, usize)>, v: int)
    ensures
        incidences(a + b, v) == incidences(a, v) + incidences(b, v),
    decreases b.len(),
{
    if b.len() == 0 {
        assert(a + b =~= a);
    } else {
        lemma_incidences_concat(a, b.drop_last(), v);
        assert((a + b).drop_last() =~= a + b.drop_last());
        assert((a + b).last() == b.last());
    }
}

/// The complete graph `K_n` with `n >= 1` is `(n - 1)`-regular.
pub proof fn lemma_complete_regular(n: usize)
    requires
        n >= 1,
    ensures
        regular_degree(n as nat, complete_rows(n as nat, n as nat)) == Some((n - 1) as nat),
{
    assert forall|v: int| 0 <= v < n implies #[trigger] incidences(
        complete_rows(n as nat, n as nat),
        v,
    ) == n - 1 by {
        lemma_complete_rows_incidences(n as nat, n as nat, v);
    }
    assert(incidences(complete_rows(n as nat, n as nat), 0) == n - 1);
}

/// Every pair of the first `k` rows is `(p, q)` with `p < q < n`.
proof fn lemma_complete_rows_ends(k: nat, n: nat)
    requires
        k <= n <= usize::MAX,
    ensures
        forall|t: int|
            0 <= t < complete_rows(k, n).len() ==> #[trigger] complete_rows(k, n)[t].0
                < complete_rows(k, n)[t].1 && complete_rows(k, n)[t].1 < n,
    decreases k,
{
    if k > 0 {
        lemma_complete_rows_ends((k - 1) as nat, n);
        let a = complete_rows((k - 1) as nat, n);
        let b = complete_row((k - 1) as nat, n);
        let s = complete_rows(k, n);
        assert(s == a + b);
        assert forall|t: int| 0 <= t < s.len() implies #[trigger] s[t].0 < s[t].1 && s[t].1 < n by {
            if t < a.len() {
                assert(s[t] == a[t]);
                assert(a[t].0 < a[t].1 && a[t].1 < n);
            } else {
                assert(s[t] == b[t - a.len()]);
            }
        }
    }
}

/// The first `k` rows come first in every longer list of rows.
proof fn lemma_complete_rows_prefix(k: nat, m: nat, n: nat)
    requires
        k <= m,
    ensures
        complete_rows(m, n).len() >= complete_rows(k, n).len(),
        forall|t: int|
            0 <= t < complete_rows(k, n).len() ==> #[trigger] complete_rows(m, n)[t] == complete_rows(
                k,
                n,
            )[t],
    decreases m,
{
    if m > k {
        lemma_complete_rows_prefix(k, (m - 1) as nat, n);
        let a = complete_rows((m - 1) as nat, n);
        let b = complete_row((m - 1) as nat, n);
        assert forall|t: int| 0 <= t < complete_rows(k, n).len() implies #[trigger] complete_rows(
            m,
            n,
        )[t] == complete_rows(k, n)[t] by {
            assert((a + b)[t] == a[t]);
        }
    }
}

/// The complete graph `K_n` is bipartite exactly when `n <= 2`.
pub proof fn lemma_complete_bipartite(n: usize)
    ensures
        two_colorable(complete_rows(n as nat, n as nat)) == (n <= 2),
{
    let s = complete_rows(n as nat, n as nat);
    lemma_complete_rows_ends(n as nat, n as nat);
    if n <= 2 {
        let c = |x: int| x == 0;
        assert forall|k: int| 0 <= k < s.len() implies #[trigger] c(s[k].0 as int) != c(
            s[k].1 as int,
        ) by {
            assert(s[k].0 < s[k].1);
            assert(s[k].1 < n);
        }
        assert(proper_coloring(s, c));
    } else {
        lemma_complete_rows_prefix(2, n as nat, n as nat);
        let two = complete_rows(2, n as nat);
        assert(complete_rows(0, n as nat) =~= Seq::<(usize, usize)>::empty());
        assert(complete_rows(1, n as nat) =~= complete_row(0, n as nat));
        assert(two =~= complete_row(0, n as nat) + complete_row(1, n as nat));
        assert(two[0] == (0usize, 1usize));
        assert(two[1] == (0usize, 2usize));
        assert(two[n - 1] == (1usize, 2usize));
        assert forall|c: spec_fn(int) -> bool| !#[trigger] proper_coloring(s, c) by {
            if proper_coloring(s, c) {
                assert(c(s[0].0 as int) != c(s[0].1 as int));
                assert(c(s[1].0 as int) != c(s[1].1 as int));
                assert(c(s[n - 1].0 as int) != c(s[n - 1].1 as int));
            }
        }
    }
}

/// The complete graph `K_n`: every pair `i < j` of vertices is joined, the
/// pairs listed in increasing lexicographic order.
pub fn complete_graph(n: usize) -> (g: Graph)
    ensures
        g.num_vertices() == n,
        strictly_sorted(g.edge_list()),
        forall|k: int|
            #![trigger g.edge_list()[k]]
            0 <= k < g.edge_list().len() ==> g.edge_list()[k].0 < g.edge_list()[k].1
                && g.edge_list()[k].1 < n,
        forall|p: usize, q: usize| p < q < n ==> #[trigger] g.edge_list().contains((p, q)),
        g.edge_list() == complete_rows(n as nat, n as nat),
{
    let mut edges: Vec<(usize, usize)> = Vec::new();
    let mut i: usize = 0;
    while i < n
        invariant
            i <= n,
            strictly_sorted(edges@),
            forall|k: int| #![trigger edges@[k]] 0 <= k < edges@.len() ==> edges@[k].0 < edges@[k].1 && edges@[k].1 < n,
            forall|k: int| 0 <= k < edges@.len() ==> #[trigger] edges@[k].0 < i,
            forall|p: usize, q: usize| p < q < n && p < i ==> #[trigger] edges@.contains((p, q)),
            edges@ == complete_rows(i as nat, n as nat),
        decreases n - i,
    {
        let mut j: usize = i + 1;
        while j < n
            invariant
                i < n,
                i + 1 <= j <= n,
                strictly_sorted(edges@),
                forall|k: int| #![trigger edges@[k]] 0 <= k < edges@.len() ==> edges@[k].0 < edges@[k].1 && edges@[k].1 < n,
                forall|k: int|
                    0 <= k < edges@.len() ==> #[trigger] lex_lt(edges@[k], (i, j)),
                forall|k: int| 0 <= k < edges@.len() ==> #[trigger] edges@[k].0 <= i,
                forall|p: usize, q: usize|
                    p < q < n && (p < i || (p == i && q < j)) ==> #[trigger] edges@.contains((p, q)),
                edges@ == complete_rows(i as nat, n as nat) + complete_row(i as nat, n as nat).take(
                    j - i - 1,
                ),
            decreases n - j,
        {
            let ghost before = edges@;
            edges.push((i, j));
            assert forall|p: usize, q: usize|
                p < q < n && (p < i || (p == i && q < j + 1)) implies #[trigger] edges@.contains(
                (p, q),
            ) by {
                if p == i && q == j {
                    assert(edges@[before.len() as int] == (p, q));
                } else {
                    assert(before.contains((p, q)));
                    let t = choose|t: int| 0 <= t < before.len() && before[t] == (p, q);
                    assert(edges@[t] == (p, q));
                }
            }
            assert forall|k: int| 0 <= k < edges@.len() implies #[trigger] lex_lt(
                edges@[k],
                (i, (j + 1) as usize),
            ) by {
                if k < before.len() {
                    assert(lex_lt(before[k], (i, j)));
                }
            }
            assert(complete_row(i as nat, n as nat).take(j - i) =~= complete_row(
                i as nat,
                n as nat,
            ).take(j - i - 1).push((i, j)));
            assert(edges@ =~= complete_rows(i as nat, n as nat) + complete_row(
                i as nat,
                n as nat,
            ).take(j - i));
            j = j + 1;
        }
        assert(complete_row(i as nat, n as nat).take(n - i - 1) =~= complete_row(i as nat, n as nat));
        i = i + 1;
    }
    proof {
        assert forall|k: int| 0 <= k < edges@.len() implies #[trigger] valid_edge(
            n as nat,
            edges@[k],
        ) by {
            assert(edges@[k].0 < edges@[k].1 && edges@[k].1 < n);
        }
    }
    Graph::new(n, edges)
}

/// Outer-rim edge `i` of the Petersen graph: `i` joined to `(i + 1) % 5`,
/// smaller end first.
pub open spec fn petersen_outer(i: int) -> (usize, usize) {
    let a = i;
    let b = (i + 1) % 5;
    if a < b {
        (a as usize, b as usize)
    } else {
        (b as usize, a as usize)
    }
}

/// Inner-star edge `i` of the Petersen graph: `5 + i` joined to
/// `5 + (i + 2) % 5`, smaller end first.
pub open spec fn petersen_inner(i: int) -> (usize, usize) {
    let a = 5 + i;
    let b = 5 + (i + 2) % 5;
    if a < b {
        (a as usize, b as usize)
    } else {
        (b as usize, a as usize)
    }
}

/// Spoke `i` of the Petersen graph: `i` joined to `i + 5`.
pub open spec fn petersen_spoke(i: int) -> (usize, usize) {
    (i as usize, (i + 5) as usize)
}

/// `e` is the outer edge, the inner edge or the spoke with index `i`.
pub open spec fn petersen_edge_at(i: int, e: (usize, usize)) -> bool {
    e == petersen_outer(i) || e == petersen_inner(i) || e == petersen_spoke(i)
}

/// `e` is an edge of the Petersen graph as drawn here.
pub open spec fn petersen_edge(e: (usize, usize)) -> bool {
    exists|i: int| 0 <= i < 5 && #[trigger] petersen_edge_at(i, e)
}

/// The Petersen graph on the vertices `0..10`: the outer 5-cycle, the inner
/// pentagram on `5..10` and the five spokes, each edge `(u, v)` with
/// `u < v`, listed once each in increasing lexicographic order.
pub fn petersen_graph() -> (g: Graph)
    ensures
        g.num_vertices() == 10,
        strictly_sorted(g.edge_list()),
        forall|k: int|
            #![trigger g.edge_list()[k]]
            0 <= k < g.edge_list().len() ==> g.edge_list()[k].0 < g.edge_list()[k].1,
        forall|e: (usize, usize)| #[trigger] g.edge_list().contains(e) <==> petersen_edge(e),
{
    let mut edges: Vec<(usize, usize)> = Vec::new();
    let mut i: usize = 0;
    while i < 5
        invariant
            i <= 5,
            edges@.len() == i,
            forall|k: int| 0 <= k < i ==> #[trigger] edges@[k] == petersen_outer(k),
        decreases 5 - i,
    {
        let a = i;
        let b = (i + 1) % 5;
        if a < b {
            edges.push((a, b));
        } else {
            edges.push((b, a));
        }
        i = i + 1;
    }
    let mut i: usize = 0;
    while i < 5
        invariant
            i <= 5,
            edges@.len() == 5 + i,
            forall|k: int| 0 <= k < 5 ==> #[trigger] edges@[k] == petersen_outer(k),
            forall|k: int| 0 <= k < i ==> #[trigger] edges@[5 + k] == petersen_inner(k),
        decreases 5 - i,
    {
        let a = 5 + i;
        let b = 5 + (i + 2) % 5;
        if a < b {
            edges.push((a, b));
        } else {
            edges.push((b, a));
        }
        i = i + 1;
    }
    let mut i: usize = 0;
    while i < 5
        invariant
            i <= 5,
            edges@.len() == 10 + i,
            forall|k: int| 0 <= k < 5 ==> #[trigger] edges@[k] == petersen_outer(k),
            forall|k: int| 0 <= k < 5 ==> #[trigger] edges@[5 + k] == petersen_inner(k),
            forall|k: int| 0 <= k < i ==> #[trigger] edges@[10 + k] == petersen_spoke(k),
        decreases 5 - i,
    {
        edges.push((i, i + 5));
        i = i + 1;
    }
    let ghost raw = edges@;
    proof {
        assert forall|e: (usize, usize)| #[trigger] raw.contains(e) <==> petersen_edge(e) by {
            if raw.contains(e) {
                let t = choose|t: int| 0 <= t < raw.len() && raw[t] == e;
                if t < 5 {
                    assert(petersen_edge_at(t, e));
                } else if t < 10 {
                    assert(petersen_edge_at(t - 5, e));
                } else {
                    assert(raw[10 + (t - 10)] == petersen_spoke(t - 10));
                    assert(petersen_edge_at(t - 10, e));
                }
            }
            if petersen_edge(e) {
                let i = choose|i: int| 0 <= i < 5 && #[trigger] petersen_edge_at(i, e);
                if e == petersen_outer(i) {
                    assert(raw[i] == e);
                } else if e == petersen_inner(i) {
                    assert(raw[5 + i] == e);
                } else {
                    assert(raw[10 + i] == e);
                }
            }
        }
    }
    let sorted = sort_dedup(edges);
    proof {
        assert forall|k: int| 0 <= k < sorted@.len() implies #[trigger] valid_edge(10, sorted@[k]) by {
            assert(sorted@.contains(sorted@[k]));
            let i = choose|i: int| 0 <= i < 5 && #[trigger] petersen_edge_at(i, sorted@[k]);
        }
        assert forall|k: int| #![trigger sorted@[k]] 0 <= k < sorted@.len() implies sorted@[k].0
            < sorted@[k].1 by {
            assert(sorted@.contains(sorted@[k]));
            let i = choose|i: int| 0 <= i < 5 && #[trigger] petersen_edge_at(i, sorted@[k]);
        }
    }
    Graph::new(10, sorted)
}

/// The edges that flip bit `b` of a vertex `p < q`: `q == p ^ (1 << b)`.
pub open spec fn flips_bit(p: usize, q: usize, b: usize) -> bool {
    b < usize::BITS && q == p ^ (1usize << b)
}

/// `(p, q)` is an edge of the hypercube `Q_d`: `p < q < 2^d` and the two
/// differ in exactly one of the low `d` bits.
pub open spec fn hypercube_edge(d: usize, p: usize, q: usize) -> bool {
    &&& p < q < (1usize << d)
    &&& exists|b: usize| b < d && #[trigger] flips_bit(p, q, b)
}

/// Flipping one of the low `d` bits of a number below `2^d` stays below `2^d`.
proof fn lemma_flip_below(v: usize, b: usize, d: usize)
    by (bit_vector)
    requires
        b < d,
        d < usize::BITS,
        v < (1usize << d),
    ensures
        (v ^ (1usize << b)) < (1usize << d),
{
}

/// Flipping bit `b` upward adds `2^b`.
proof fn lemma_flip_up(v: usize, b: usize)
    by (bit_vector)
    requires
        b < usize::BITS,
        v < (v ^ (1usize << b)),
    ensures
        (v ^ (1usize << b)) == v + (1usize << b),
{
}

/// Powers of two grow with the exponent.
proof fn lemma_pow2_increasing(b1: usize, b2: usize)
    by (bit_vector)
    requires
        b1 < b2,
        b2 < usize::BITS,
    ensures
        (1usize << b1) < (1usize << b2),
{
}

/// The number of one bits of `x`.
pub open spec fn bit_count(x: usize) -> nat
    decreases x,
{
    if x == 0 {
        0
    } else {
        bit_count(x / 2) + (x % 2) as nat
    }
}

/// Flipping bit 0 keeps the higher bits and changes the lowest one.
proof fn lemma_flip_low_bit(x: usize)
    by (bit_vector)
    ensures
        (x ^ 1usize) / 2 == x / 2,
        ((x ^ 1usize) % 2 == 0) == (x % 2 == 1),
{
}

/// Flipping bit `b > 0` flips bit `b - 1` of the higher bits and keeps the
/// lowest one.
proof fn lemma_flip_high_bit(x: usize, b: usize, c: usize)
    by (bit_vector)
    requires
        0 < b < usize::BITS,
        c == b - 1,
    ensures
        (x ^ (1usize << b)) / 2 == (x / 2) ^ (1usize << c),
        (x ^ (1usize << b)) % 2 == x % 2,
{
}

/// Flipping one bit changes the parity of the number of one bits.
proof fn lemma_flip_changes_parity(x: usize, b: usize)
    requires
        b < usize::BITS,
    ensures
        (bit_count(x ^ (1usize << b)) + bit_count(x)) % 2 == 1,
    decreases b,
{
    let y = x ^ (1usize << b);
    assert(bit_count(x) == bit_count(x / 2) + (x % 2) as nat);
    assert(bit_count(y) == bit_count(y / 2) + (y % 2) as nat);
    if b == 0 {
        assert(1usize << 0usize == 1usize) by (bit_vector);
        lemma_flip_low_bit(x);
    } else {
        lemma_flip_high_bit(x, b, (b - 1) as usize);
        lemma_flip_changes_parity(x / 2, (b - 1) as usize);
    }
}

/// The hypercube `Q_d` is bipartite: the vertices with an even number of
/// one bits form one side. Every list of hypercube edges is two-colourable.
pub proof fn lemma_hypercube_bipartite(d: usize, edges: Seq<(usize, usize)>)
    requires
        forall|k: int| 0 <= k < edges.len() ==> hypercube_edge(d, #[trigger] edges[k].0, edges[k].1),
    ensures
        two_colorable(edges),
{
    let c = |x: int| bit_count(x as usize) % 2 == 0;
    assert forall|k: int| 0 <= k < edges.len() implies #[trigger] c(edges[k].0 as int) != c(
        edges[k].1 as int,
    ) by {
        let p = edges[k].0;
        let q = edges[k].1;
        assert(hypercube_edge(d, p, q));
        let b = choose|b: usize| b < d && #[trigger] flips_bit(p, q, b);
        lemma_flip_changes_parity(p, b);
    }
    assert(proper_coloring(edges, c));
}

/// The distinct edges of `s` that have `v` as an end.
pub open spec fn touching(s: Seq<(usize, usize)>, v: int) -> Set<(usize, usize)> {
    Set::new(|e: (usize, usize)| s.contains(e) && (e.0 == v || e.1 == v))
}

/// In a list without repeats or loops, the degree of `v` is the number of
/// distinct edges at `v`.
proof fn lemma_incidences_as_set(s: Seq<(usize, usize)>, v: int)
    requires
        s.no_duplicates(),
        forall|k: int| 0 <= k < s.len() ==> #[trigger] s[k].0 != s[k].1,
    ensures
        touching(s, v).finite(),
        incidences(s, v) == touching(s, v).len(),
    decreases s.len(),
{
    if s.len() == 0 {
        assert(touching(s, v) =~= Set::<(usize, usize)>::empty());
    } else {
        let pre = s.drop_last();
        let x = s.last();
        assert(pre.push(x) =~= s);
        assert forall|k: int| 0 <= k < pre.len() implies #[trigger] pre[k].0 != pre[k].1 by {
            assert(s[k].0 != s[k].1);
        }
        assert(pre.no_duplicates()) by {
            assert forall|i: int, j: int| 0 <= i < pre.len() && 0 <= j < pre.len() && i != j
                implies pre[i] != pre[j] by {
                assert(s[i] != s[j]);
            }
        }
        lemma_incidences_as_set(pre, v);
        assert(x.0 != x.1) by {
            assert(s[s.len() - 1].0 != s[s.len() - 1].1);
        }
        assert(!pre.contains(x)) by {
            if pre.contains(x) {
                let t = choose|t: int| 0 <= t < pre.len() && pre[t] == x;
                assert(s[t] == s[s.len() - 1]);
            }
        }
        if x.0 == v || x.1 == v {
            assert(touching(s, v) =~= touching(pre, v).insert(x));
        } else {
            assert(touching(s, v) =~= touching(pre, v));
        }
    }
}

/// Flipping a bit changes the number; flipping it back restores it; two
/// different bits give different results.
proof fn lemma_flip_facts(v: usize, b: usize, c: usize)
    by (bit_vector)
    requires
        b < usize::BITS,
        c < usize::BITS,
    ensures
        (v ^ (1usize << b)) != v,
        ((v ^ (1usize << b)) ^ (1usize << b)) == v,
        (v ^ (1usize << b)) == (v ^ (1usize << c)) ==> b == c,
{
}

/// The hypercube edge at `v` that flips bit `b`, smaller end first.
pub open spec fn hypercube_edge_at(v: usize, b: usize) -> (usize, usize) {
    let w = v ^ (1usize << b);
    if v < w {
        (v, w)
    } else {
        (w, v)
    }
}

/// The hypercube `Q_d` is `d`-regular: a list holding every hypercube edge
/// once, and nothing else, gives each vertex `d` edge ends.
pub proof fn lemma_hypercube_regular(d: usize, edges: Seq<(usize, usize)>)
    requires
        d < usize::BITS,
        strictly_sorted(edges),
        forall|k: int| 0 <= k < edges.len() ==> hypercube_edge(d, #[trigger] edges[k].0, edges[k].1),
        forall|p: usize, q: usize| hypercube_edge(d, p, q) ==> #[trigger] edges.contains((p, q)),
    ensures
        regular_degree((1usize << d) as nat, edges) == Some(d as nat),
{
    let n = 1usize << d;
    assert(edges.no_duplicates()) by {
        assert forall|i: int, j: int| 0 <= i < edges.len() && 0 <= j < edges.len() && i != j
            implies edges[i] != edges[j] by {
            if i < j {
                assert(lex_lt(edges[i], edges[j]));
            } else {
                assert(lex_lt(edges[j], edges[i]));
            }
        }
    }
    assert forall|k: int| 0 <= k < edges.len() implies #[trigger] edges[k].0 != edges[k].1 by {
        assert(hypercube_edge(d, edges[k].0, edges[k].1));
    }
    assert forall|v: int| 0 <= v < n implies #[trigger] incidences(edges, v) == d by {
        let vu = v as usize;
        lemma_incidences_as_set(edges, v);
        let f = |i: int| hypercube_edge_at(vu, i as usize);
        let dom = set_int_range(0, d as int);
        lemma_int_range(0, d as int);
        assert forall|i: int, j: int| dom.contains(i) && dom.contains(j) && #[trigger] f(i)
            == #[trigger] f(j) implies i == j by {
            lemma_flip_facts(vu, i as usize, j as usize);
        }
        assert forall|e: (usize, usize)| #[trigger] dom.map(f).contains(e) <==> touching(
            edges,
            v,
        ).contains(e) by {
            if dom.map(f).contains(e) {
                let i = choose|i: int| dom.contains(i) && #[trigger] f(i) == e;
                let b = i as usize;
                let w = vu ^ (1usize << b);
                lemma_flip_facts(vu, b, b);
                lemma_flip_below(vu, b, d);
                if vu < w {
                    assert(flips_bit(vu, w, b));
                    assert(hypercube_edge(d, vu, w));
                } else {
                    assert(flips_bit(w, vu, b));
                    assert(hypercube_edge(d, w, vu));
                }
            }
            if touching(edges, v).contains(e) {
                let t = choose|t: int| 0 <= t < edges.len() && edges[t] == e;
                assert(hypercube_edge(d, edges[t].0, edges[t].1));
                let b = choose|b: usize| b < d && #[trigger] flips_bit(e.0, e.1, b);
                lemma_flip_facts(e.0, b, b);
                assert(dom.contains(b as int));
                assert(f(b as int) == e);
            }
        }
        assert(dom.map(f) =~= touching(edges, v));
        lemma_map_size(dom, touching(edges, v), f);
    }
    assert((1usize << d) > 0) by (bit_vector)
        requires
            d < usize::BITS,
    ;
    assert(incidences(edges, 0) == d);
}

/// The hypercube `Q_d` on the vertices `0..2^d`: two vertices are joined
/// when they differ in exactly one bit. The edges `(v, w)`, `v < w`, come
/// in increasing lexicographic order. `d` must be below the word size.
pub fn hypercube_graph(d: usize) -> (g: Graph)
    requires
        d < usize::BITS,
    ensures
        g.num_vertices() == (1usize << d),
        strictly_sorted(g.edge_list()),
        forall|k: int|
            0 <= k < g.edge_list().len() ==> hypercube_edge(
                d,
                #[trigger] g.edge_list()[k].0,
                g.edge_list()[k].1,
            ),
        forall|p: usize, q: usize| hypercube_edge(d, p, q) ==> #[trigger] g.edge_list().contains((p, q)),
{
    let n: usize = 1usize << d;
    let mut edges: Vec<(usize, usize)> = Vec::new();
    let mut v: usize = 0;
    while v < n
        invariant
            d < usize::BITS,
            n == (1usize << d),
            v <= n,
            strictly_sorted(edges@),
            forall|k: int| 0 <= k < edges@.len() ==> hypercube_edge(d, #[trigger] edges@[k].0, edges@[k].1),
            forall|k: int| 0 <= k < edges@.len() ==> #[trigger] edges@[k].0 < v,
            forall|p: usize, q: usize, b: usize|
                p < q < n && b < d && p < v && #[trigger] flips_bit(p, q, b) ==> edges@.contains((p, q)),
        decreases n - v,
    {
        let mut bit: usize = 0;
        while bit < d
            invariant
                d < usize::BITS,
                n == (1usize << d),
                v < n,
                bit <= d,
                strictly_sorted(edges@),
                forall|k: int| 0 <= k < edges@.len() ==> hypercube_edge(d, #[trigger] edges@[k].0, edges@[k].1),
                forall|k: int| 0 <= k < edges@.len() ==> #[trigger] edges@[k].0 <= v,
                forall|k: int|
                    0 <= k < edges@.len() && #[trigger] edges@[k].0 == v ==> edges@[k].1 < v + (1usize
                        << bit),
                forall|p: usize, q: usize, b: usize|
                    p < q < n && b < d && (p < v || (p == v && b < bit)) && #[trigger] flips_bit(p, q, b)
                        ==> edges@.contains((p, q)),
            decreases d - bit,
        {
            let w = v ^ (1usize << bit);
            proof {
                lemma_flip_below(v, bit, d);
                if bit + 1 < usize::BITS {
                    lemma_pow2_increasing(bit, (bit + 1) as usize);
                }
            }
            let ghost before = edges@;
            if v < w {
                proof {
                    lemma_flip_up(v, bit);
                    assert(flips_bit(v, w, bit));
                }
                edges.push((v, w));
                assert forall|i: int, j: int| 0 <= i < j < edges@.len() implies lex_lt(
                    #[trigger] edges@[i],
                    #[trigger] edges@[j],
                ) by {
                    if j == before.len() {
                        assert(before[i].0 <= v);
                        if before[i].0 == v {
                            assert(before[i].1 < v + (1usize << bit));
                        }
                    } else {
                        assert(lex_lt(before[i], before[j]));
                    }
                }
                assert forall|p: usize, q: usize, b: usize|
                    p < q < n && b < d && (p < v || (p == v && b < bit + 1)) && #[trigger] flips_bit(
                        p,
                        q,
                        b,
                    ) implies edges@.contains((p, q)) by {
                    if p == v && b == bit {
                        assert(edges@[before.len() as int] == (p, q));
                    } else {
                        assert(before.contains((p, q)));
                        let t = choose|t: int| 0 <= t < before.len() && before[t] == (p, q);
                        assert(edges@[t] == (p, q));
                    }
                }
                assert(hypercube_edge(d, edges@[before.len() as int].0, edges@[before.len() as int].1));
            }
            proof {
                if bit + 1 < usize::BITS {
                    assert forall|k: int|
                        0 <= k < edges@.len() && #[trigger] edges@[k].0 == v implies edges@[k].1 < v
                        + (1usize << ((bit + 1) as usize)) by {
                        if k < before.len() {
                        }
                    }
                }
            }
            bit = bit + 1;
        }
        v = v + 1;
    }
    proof {
        assert forall|k: int| 0 <= k < edges@.len() implies #[trigger] valid_edge(n as nat, edges@[k]) by {
            assert(hypercube_edge(d, edges@[k].0, edges@[k].1));
        }
        assert forall|p: usize, q: usize| hypercube_edge(d, p, q) implies #[trigger] edges@.contains(
            (p, q),
        ) by {
            let b = choose|b: usize| b < d && #[trigger] flips_bit(p, q, b);
        }
    }
    Graph::new(n, edges)
}

/// A small connected graph on six vertices with degrees 2 and 3: the
/// triangle `0, 1, 2`, the square `1, 3, 4, 2` and the triangle `3, 4, 5`.
pub fn irregular_test_graph() -> (g: Graph)
    ensures
        g.num_vertices() == 6,
        g.edge_list() == seq![
            (0usize, 1usize),
            (0, 2),
            (1, 2),
            (1, 3),
            (2, 4),
            (3, 4),
            (3, 5),
            (4, 5),
        ],
{
    let edges: Vec<(usize, usize)> = vec![(0, 1), (0, 2), (1, 2), (1, 3), (2, 4), (3, 4), (3, 5), (4, 5)];
    proof {
        assert forall|k: int| 0 <= k < edges@.len() implies #[trigger] valid_edge(6, edges@[k]) by {}
    }
    Graph::new(6, edges)
}

} // verus!
