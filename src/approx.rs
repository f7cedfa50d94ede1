//! Deterministic greedy cuts, which cut at least half of the edges.
use vstd::prelude::*;
use crate::cut::{cut_by, cut_edges, lemma_cut_by};
use crate::graph::{
    adjacent, all_edges_of, lemma_all_edges, lemma_contains_adjacent, well_formed, Edge, Graph,
};

verus! {

/// How many of the neighbours `g[v][0..j]` below `v` have the side `side`
/// under `s`.
pub open spec fn lower_count(g: Seq<Seq<usize>>, v: int, j: int, s: Seq<bool>, side: bool) -> nat
    decreases j,
{
    if j <= 0 {
        0
    } else {
        let u = g[v][j - 1];
        lower_count(g, v, j - 1, s, side) + if (u as int) < v && s[u as int] == side { 1nat } else { 0nat }
    }
}

/// The edges `Edge(u, v)` to the neighbours `u` in `g[v][0..j]` below `v`
/// whose side under `s` is not `side`, in list order.
pub open spec fn crossing_lower(g: Seq<Seq<usize>>, v: int, j: int, s: Seq<bool>, side: bool) -> Seq<Edge>
    decreases j,
{
    if j <= 0 {
        Seq::empty()
    } else {
        let rest = crossing_lower(g, v, j - 1, s, side);
        let u = g[v][j - 1];
        if (u as int) < v && s[u as int] != side { rest.push(Edge(u, v as usize)) } else { rest }
    }
}

/// The side that the greedy rule gives `v` once the vertices below it have
/// the sides `s`: `true` unless more of its lower neighbours are on the
/// `true` side than on the other.
pub open spec fn greedy_choice(g: Seq<Seq<usize>>, v: int, s: Seq<bool>) -> bool {
    lower_count(g, v, g[v].len() as int, s, true) <= lower_count(g, v, g[v].len() as int, s, false)
}

/// The sides of the vertices `0..k` under the greedy rule.
pub open spec fn greedy_sides(g: Seq<Seq<usize>>, k: int) -> Seq<bool>
    decreases k,
{
    if k <= 0 {
        Seq::empty()
    } else {
        let s = greedy_sides(g, k - 1);
        s.push(greedy_choice(g, k - 1, s))
    }
}

/// The edges that the greedy rule cuts while it places `v`: those to lower
/// neighbours on the other side.
pub open spec fn greedy_step(g: Seq<Seq<usize>>, v: int) -> Seq<Edge> {
    let s = greedy_sides(g, v);
    crossing_lower(g, v, g[v].len() as int, s, greedy_choice(g, v, s))
}

/// The cut edges emitted while placing the vertices `0..k`.
pub open spec fn greedy_cut_upto(g: Seq<Seq<usize>>, k: int) -> Seq<Edge>
    decreases k,
{
    if k <= 0 {
        Seq::empty()
    } else {
        greedy_cut_upto(g, k - 1) + greedy_step(g, k - 1)
    }
}

/// The cut of the greedy rule on the whole graph.
pub open spec fn greedy_cut(g: Seq<Seq<usize>>) -> Seq<Edge> {
    greedy_cut_upto(g, g.len() as int)
}

/// The edges `Edge(u, v)` to the neighbours `u` in `g[v][0..j]` below `v`.
pub open spec fn lower_edges(g: Seq<Seq<usize>>, v: int, j: int) -> Seq<Edge>
    decreases j,
{
    if j <= 0 {
        Seq::empty()
    } else {
        let rest = lower_edges(g, v, j - 1);
        let u = g[v][j - 1];
        if (u as int) < v { rest.push(Edge(u, v as usize)) } else { rest }
    }
}

/// The edges of the vertices `0..k` listed from their larger end.
pub open spec fn lower_edges_upto(g: Seq<Seq<usize>>, k: int) -> Seq<Edge>
    decreases k,
{
    if k <= 0 {
        Seq::empty()
    } else {
        lower_edges_upto(g, k - 1) + lower_edges(g, k - 1, g[k - 1].len() as int)
    }
}

/// The sides of a shorter prefix of vertices are a prefix of the sides.
proof fn lemma_sides_prefix(g: Seq<Seq<usize>>, k: int, m: int)
    requires
        0 <= k <= m,
    ensures
        greedy_sides(g, m).len() == m,
        greedy_sides(g, m).subrange(0, k) == greedy_sides(g, k),
    decreases m,
{
    if m > 0 {
        if k < m {
            lemma_sides_prefix(g, k, m - 1);
            assert(greedy_sides(g, m).subrange(0, k) =~= greedy_sides(g, m - 1).subrange(0, k));
        } else {
            lemma_sides_prefix(g, k - 1, m - 1);
            assert(greedy_sides(g, m).subrange(0, k) =~= greedy_sides(g, m));
        }
    }
}

/// What `crossing_lower` holds: edges from lower neighbours on the other side.
proof fn lemma_crossing_members(g: Seq<Seq<usize>>, v: int, j: int, s: Seq<bool>, side: bool)
    requires
        0 <= v < g.len(),
        v <= usize::MAX,
        0 <= j <= g[v].len(),
    ensures
        forall|e: Edge| #[trigger] crossing_lower(g, v, j, s, side).contains(e) ==> e.1 == v && e.0 < e.1
            && s[e.0 as int] != side && adjacent(g, v, e.0 as int),
    decreases j,
{
    if j > 0 {
        lemma_crossing_members(g, v, j - 1, s, side);
        let rest = crossing_lower(g, v, j - 1, s, side);
        assert forall|e: Edge| #[trigger] crossing_lower(g, v, j, s, side).contains(e) implies e.1 == v && e.0 < e.1
            && s[e.0 as int] != side && adjacent(g, v, e.0 as int) by {
            let u = g[v][j - 1];
            if e == Edge(u, v as usize) && (u as int) < v && s[u as int] != side {
                assert(g[v][j - 1] as int == e.0 as int);
            } else {
                let k = choose|k: int| 0 <= k < crossing_lower(g, v, j, s, side).len() && crossing_lower(g, v, j, s, side)[k] == e;
                assert(rest[k] == e);
                assert(rest.contains(e));
            }
        }
    }
}

/// The edges emitted while placing `0..k` join a lower to a higher vertex of
/// `0..k`, are edges, and cross the sides of those vertices.
proof fn lemma_greedy_cut_members(g: Seq<Seq<usize>>, k: int)
    requires
        well_formed(g),
        0 <= k <= g.len(),
        g.len() <= usize::MAX,
    ensures
        forall|e: Edge| #[trigger] greedy_cut_upto(g, k).contains(e) ==> e.0 < e.1 < k && adjacent(g, e.1 as int, e.0 as int)
            && greedy_sides(g, k)[e.0 as int] != greedy_sides(g, k)[e.1 as int],
    decreases k,
{
    if k > 0 {
        lemma_greedy_cut_members(g, k - 1);
        let v = k - 1;
        let s = greedy_sides(g, v);
        lemma_crossing_members(g, v, g[v].len() as int, s, greedy_choice(g, v, s));
        lemma_sides_prefix(g, v, k);
        let a = greedy_cut_upto(g, v);
        let b = greedy_step(g, v);
        assert forall|e: Edge| #[trigger] greedy_cut_upto(g, k).contains(e) implies e.0 < e.1 < k && adjacent(g, e.1 as int, e.0 as int)
            && greedy_sides(g, k)[e.0 as int] != greedy_sides(g, k)[e.1 as int] by {
            let t = choose|t: int| 0 <= t < (a + b).len() && (a + b)[t] == e;
            if t < a.len() {
                assert(a.contains(e));
                assert(greedy_sides(g, k)[e.0 as int] == s[e.0 as int]);
                assert(greedy_sides(g, k)[e.1 as int] == s[e.1 as int]);
            } else {
                assert(b[t - a.len()] == e);
                assert(b.contains(e));
                assert(greedy_sides(g, k)[e.0 as int] == s[e.0 as int]);
            }
        }
    }
}

/// Every lower neighbour on the other side gives its edge to `crossing_lower`.
proof fn lemma_crossing_complete(g: Seq<Seq<usize>>, v: int, j: int, s: Seq<bool>, side: bool, t: int)
    requires
        0 <= v < g.len(),
        v <= usize::MAX,
        0 <= t < j <= g[v].len(),
        (g[v][t] as int) < v,
        s[g[v][t] as int] != side,
    ensures
        crossing_lower(g, v, j, s, side).contains(Edge(g[v][t], v as usize)),
    decreases j,
{
    let rest = crossing_lower(g, v, j - 1, s, side);
    if t < j - 1 {
        lemma_crossing_complete(g, v, j - 1, s, side, t);
        let k = choose|k: int| 0 <= k < rest.len() && rest[k] == Edge(g[v][t], v as usize);
        assert(crossing_lower(g, v, j, s, side)[k] == rest[k]);
    } else {
        assert(crossing_lower(g, v, j, s, side)[rest.len() as int] == Edge(g[v][t], v as usize));
    }
}

/// Every edge among `0..k` whose ends the greedy placement puts on different
/// sides is emitted.
proof fn lemma_greedy_cut_complete(g: Seq<Seq<usize>>, k: int)
    requires
        well_formed(g),
        0 <= k <= g.len(),
        g.len() <= usize::MAX,
    ensures
        forall|e: Edge| e.0 < e.1 < k && adjacent(g, e.1 as int, e.0 as int) && greedy_sides(g, k)[e.0 as int]
            != greedy_sides(g, k)[e.1 as int] ==> #[trigger] greedy_cut_upto(g, k).contains(e),
    decreases k,
{
    if k > 0 {
        lemma_greedy_cut_complete(g, k - 1);
        let v = k - 1;
        let s = greedy_sides(g, v);
        lemma_sides_prefix(g, v, k);
        let a = greedy_cut_upto(g, v);
        let b = greedy_step(g, v);
        assert forall|e: Edge| e.0 < e.1 < k && adjacent(g, e.1 as int, e.0 as int) && greedy_sides(g, k)[e.0 as int]
            != greedy_sides(g, k)[e.1 as int] implies #[trigger] greedy_cut_upto(g, k).contains(e) by {
            assert(greedy_sides(g, k)[e.0 as int] == s[e.0 as int]);
            if e.1 < v {
                assert(greedy_sides(g, k)[e.1 as int] == s[e.1 as int]);
                assert(a.contains(e));
                let q = choose|q: int| 0 <= q < a.len() && a[q] == e;
                assert((a + b)[q] == e);
            } else {
                let t = choose|t: int| 0 <= t < g[v].len() && #[trigger] g[v][t] as int == e.0 as int;
                assert(greedy_sides(g, k)[v] == greedy_choice(g, v, s));
                lemma_crossing_complete(g, v, g[v].len() as int, s, greedy_choice(g, v, s), t);
                assert(g[v][t] == e.0);
                assert(b.contains(e));
                let q = choose|q: int| 0 <= q < b.len() && b[q] == e;
                assert((a + b)[a.len() + q] == e);
            }
        }
    }
}

/// The greedy cut holds exactly the edges of the graph whose ends lie on
/// different sides under the greedy placement.
pub proof fn lemma_greedy_cut_is_cut(g: Seq<Seq<usize>>)
    requires
        well_formed(g),
        g.len() <= usize::MAX,
    ensures
        forall|e: Edge| #[trigger] greedy_cut(g).contains(e) <==> all_edges_of(g).contains(e)
            && greedy_sides(g, g.len() as int)[e.0 as int] != greedy_sides(g, g.len() as int)[e.1 as int],
{
    lemma_greedy_cut_members(g, g.len() as int);
    lemma_greedy_cut_complete(g, g.len() as int);
    lemma_all_edges(g);
    assert forall|e: Edge| all_edges_of(g).contains(e) && greedy_sides(g, g.len() as int)[e.0 as int]
        != greedy_sides(g, g.len() as int)[e.1 as int] implies #[trigger] greedy_cut(g).contains(e) by {
        assert(adjacent(g, e.0 as int, e.1 as int));
        assert(adjacent(g, e.1 as int, e.0 as int));
        let q = choose|q: int| 0 <= q < g[e.0 as int].len() && #[trigger] g[e.0 as int][q] as int == e.1 as int;
        assert(g[e.0 as int][q] < g.len());
    }
    assert forall|e: Edge| #[trigger] greedy_cut(g).contains(e) implies all_edges_of(g).contains(e) by {
        assert(adjacent(g, e.1 as int, e.0 as int));
        assert(adjacent(g, e.0 as int, e.1 as int));
    }
}

/// The greedy rule is a function of the graph: two runs on equal graphs give
/// equal cuts.
pub proof fn lemma_greedy_deterministic(g: Seq<Seq<usize>>, h: Seq<Seq<usize>>)
    requires
        g == h,
    ensures
        greedy_cut(g) == greedy_cut(h),
{
}

/// Lower neighbours on one side and on the other make up all of them.
proof fn lemma_lower_split(g: Seq<Seq<usize>>, v: int, j: int, s: Seq<bool>)
    ensures
        lower_count(g, v, j, s, true) + lower_count(g, v, j, s, false) == lower_edges(g, v, j).len(),
    decreases j,
{
    if j > 0 {
        lemma_lower_split(g, v, j - 1, s);
    }
}

/// Twice the greedy cut of `0..k` reaches the number of edges among `0..k`.
proof fn lemma_greedy_half(g: Seq<Seq<usize>>, k: int)
    requires
        0 <= k <= g.len(),
    ensures
        2 * greedy_cut_upto(g, k).len() >= lower_edges_upto(g, k).len(),
    decreases k,
{
    if k > 0 {
        lemma_greedy_half(g, k - 1);
        let v = k - 1;
        let s = greedy_sides(g, v);
        let j = g[v].len() as int;
        lemma_lower_split(g, v, j, s);
        lemma_crossing_len(g, v, j, s);
    }
}

/// The lower edges of `g[v][0..j]`, each once.
proof fn lemma_lower_edges(g: Seq<Seq<usize>>, v: int, j: int)
    requires
        well_formed(g),
        0 <= v < g.len(),
        v <= usize::MAX,
        0 <= j <= g[v].len(),
    ensures
        lower_edges(g, v, j).no_duplicates(),
        forall|e: Edge| #[trigger] lower_edges(g, v, j).contains(e) <==> e.1 == v && e.0 < e.1 && exists|t: int|
            0 <= t < j && #[trigger] g[v][t] == e.0,
    decreases j,
{
    if j > 0 {
        lemma_lower_edges(g, v, j - 1);
        let rest = lower_edges(g, v, j - 1);
        let u = g[v][j - 1];
        assert forall|e: Edge| #[trigger] lower_edges(g, v, j).contains(e) <==> e.1 == v && e.0 < e.1 && exists|t: int|
            0 <= t < j && #[trigger] g[v][t] == e.0 by {
            if (u as int) < v {
                assert(lower_edges(g, v, j) == rest.push(Edge(u, v as usize)));
                if lower_edges(g, v, j).contains(e) && e != Edge(u, v as usize) {
                    let k = choose|k: int| 0 <= k < lower_edges(g, v, j).len() && lower_edges(g, v, j)[k] == e;
                    assert(rest[k] == e);
                    assert(rest.contains(e));
                }
                if e == Edge(u, v as usize) {
                    assert(g[v][j - 1] == e.0);
                }
                if e.1 == v && e.0 < e.1 && exists|t: int| 0 <= t < j && #[trigger] g[v][t] == e.0 {
                    let t = choose|t: int| 0 <= t < j && #[trigger] g[v][t] == e.0;
                    if t < j - 1 {
                        assert(rest.contains(e));
                        let k = choose|k: int| 0 <= k < rest.len() && rest[k] == e;
                        assert(lower_edges(g, v, j)[k] == e);
                    } else {
                        assert(lower_edges(g, v, j)[rest.len() as int] == e);
                    }
                }
            } else {
                if e.1 == v && e.0 < e.1 && exists|t: int| 0 <= t < j && #[trigger] g[v][t] == e.0 {
                    let t = choose|t: int| 0 <= t < j && #[trigger] g[v][t] == e.0;
                    assert(t != j - 1);
                    assert(rest.contains(e));
                }
            }
        }
        if (u as int) < v {
            assert forall|a: int, b: int| 0 <= a < b < lower_edges(g, v, j).len() implies
                lower_edges(g, v, j)[a] != lower_edges(g, v, j)[b] by {
                if b == rest.len() {
                    assert(lower_edges(g, v, j)[a] == rest[a]);
                    assert(rest.contains(rest[a]));
                    let t = choose|t: int| 0 <= t < j - 1 && #[trigger] g[v][t] == rest[a].0;
                    assert(g[v].no_duplicates());
                }
            }
        }
    }
}

/// The edges listed from their larger end among `0..k`, each once.
proof fn lemma_lower_edges_upto(g: Seq<Seq<usize>>, k: int)
    requires
        well_formed(g),
        0 <= k <= g.len(),
        g.len() <= usize::MAX,
    ensures
        lower_edges_upto(g, k).no_duplicates(),
        forall|e: Edge| #[trigger] lower_edges_upto(g, k).contains(e) <==> e.1 < k && e.0 < e.1 && adjacent(g, e.1 as int, e.0 as int),
    decreases k,
{
    if k > 0 {
        lemma_lower_edges_upto(g, k - 1);
        let v = k - 1;
        lemma_lower_edges(g, v, g[v].len() as int);
        let a = lower_edges_upto(g, k - 1);
        let b = lower_edges(g, v, g[v].len() as int);
        assert(lower_edges_upto(g, k) == a + b);
        assert forall|e: Edge| #[trigger] lower_edges_upto(g, k).contains(e) <==> e.1 < k && e.0 < e.1 && adjacent(g, e.1 as int, e.0 as int) by {
            if (a + b).contains(e) {
                let t = choose|t: int| 0 <= t < (a + b).len() && (a + b)[t] == e;
                if t < a.len() {
                    assert(a.contains(e));
                } else {
                    assert(b[t - a.len()] == e);
                    assert(b.contains(e));
                    let q = choose|q: int| 0 <= q < g[v].len() && #[trigger] g[v][q] == e.0;
                    assert(g[v][q] as int == e.0 as int);
                }
            }
            if e.1 < k && e.0 < e.1 && adjacent(g, e.1 as int, e.0 as int) {
                if e.1 < k - 1 {
                    assert(a.contains(e));
                    let t = choose|t: int| 0 <= t < a.len() && a[t] == e;
                    assert((a + b)[t] == e);
                } else {
                    let q = choose|q: int| 0 <= q < g[v].len() && #[trigger] g[v][q] as int == e.0 as int;
                    assert(g[v][q] == e.0);
                    assert(b.contains(e));
                    let t = choose|t: int| 0 <= t < b.len() && b[t] == e;
                    assert((a + b)[a.len() + t] == e);
                }
            }
        }
        assert forall|p: int, q: int| 0 <= p < q < (a + b).len() implies (a + b)[p] != (a + b)[q] by {
            if p < a.len() && q >= a.len() {
                assert(a.contains(a[p]));
                assert(b.contains(b[q - a.len()]));
            } else if p >= a.len() {
                assert((a + b)[p] == b[p - a.len()]);
                assert((a + b)[q] == b[q - a.len()]);
            }
        }
    }
}

/// The greedy cut holds at least half of the edges, rounded down.
pub proof fn lemma_greedy_half_of_edges(g: Seq<Seq<usize>>)
    requires
        well_formed(g),
        g.len() <= usize::MAX,
    ensures
        greedy_cut(g).len() >= all_edges_of(g).len() / 2,
{
    let n = g.len() as int;
    lemma_greedy_half(g, n);
    lemma_lower_edges_upto(g, n);
    lemma_all_edges(g);
    let lo = lower_edges_upto(g, n);
    let all = all_edges_of(g);
    assert(lo.to_set() =~= all.to_set()) by {
        assert forall|e: Edge| lo.contains(e) <==> all.contains(e) by {
            if lo.contains(e) {
                assert(adjacent(g, e.0 as int, e.1 as int));
            }
            if all.contains(e) {
                assert(adjacent(g, e.1 as int, e.0 as int));
            }
        }
    }
    lo.unique_seq_to_set();
    all.unique_seq_to_set();
}

/// How many of the neighbours `l[0..j]` are already placed on the `true`
/// side under `s`.
pub open spec fn placed_true(l: Seq<usize>, j: int, s: Seq<bool>) -> nat
    decreases j,
{
    if j <= 0 {
        0
    } else {
        placed_true(l, j - 1, s) + if (l[j - 1] as int) < s.len() && s[l[j - 1] as int] { 1nat } else { 0nat }
    }
}

/// The sides of the vertices `0..k` under the plain greedy rule: a vertex goes
/// to the `true` side unless more of all its neighbours are already there than
/// are not.
pub open spec fn plain_sides(g: Seq<Seq<usize>>, k: int) -> Seq<bool>
    decreases k,
{
    if k <= 0 {
        Seq::empty()
    } else {
        let s = plain_sides(g, k - 1);
        let t = placed_true(g[k - 1], g[k - 1].len() as int, s);
        s.push(t <= g[k - 1].len() - t)
    }
}

/// Plain greedy cut: the vertices are placed in increasing order, each on the
/// `true` side unless more of its neighbours are already there than are not;
/// the cut is then read off the edge list.
pub fn max_cut_greedy(graph: &Graph) -> (cut: Vec<Edge>)
    requires
        graph.wf(),
    ensures
        cut@ == cut_by(all_edges_of(graph@), plain_sides(graph@, graph@.len() as int)),
{
    let n = graph.size();
    let ghost g = graph@;
    let mut table: Vec<bool> = Vec::new();
    let mut i: usize = 0;
    while i < n
        invariant
            i <= n,
            table@.len() == i,
            forall|k: int| 0 <= k < i ==> !table@[k],
        decreases n - i,
    {
        table.push(false);
        i = i + 1;
    }
    let mut vertex: usize = 0;
    while vertex < n
        invariant
            n == g.len(),
            g == graph@,
            well_formed(g),
            vertex <= n,
            table@.len() == n,
            table@.subrange(0, vertex as int) == plain_sides(g, vertex as int),
            forall|k: int| vertex <= k < n ==> !table@[k],
        decreases n - vertex,
    {
        let ghost s = plain_sides(g, vertex as int);
        let neighbors = graph.get_neighbors(vertex);
        let mut in_true: usize = 0;
        let mut not_in_true: usize = 0;
        let mut j: usize = 0;
        while j < neighbors.len()
            invariant
                n == g.len(),
                well_formed(g),
                vertex < n,
                neighbors@ == g[vertex as int],
                table@.len() == n,
                table@.subrange(0, vertex as int) == s,
                s.len() == vertex,
                forall|k: int| vertex <= k < n ==> !table@[k],
                j <= neighbors@.len(),
                in_true == placed_true(g[vertex as int], j as int, s),
                in_true + not_in_true == j,
            decreases neighbors@.len() - j,
        {
            let u = neighbors[j];
            assert(u < n) by {
                assert(g[vertex as int][j as int] == u);
            }
            if u < vertex {
                assert(table@[u as int] == s[u as int]);
            }
            if table[u] {
                in_true = in_true + 1;
            } else {
                not_in_true = not_in_true + 1;
            }
            j = j + 1;
        }
        let side = in_true <= not_in_true;
        if side {
            table.set(vertex, true);
        }
        proof {
            assert(table@.subrange(0, vertex as int + 1) =~= s.push(side));
        }
        vertex = vertex + 1;
    }
    assert(table@ =~= table@.subrange(0, n as int));
    let edges = graph.all_edges();
    proof {
        lemma_all_edges(g);
        assert forall|i: int| 0 <= i < edges@.len() implies (#[trigger] edges@[i]).0 < n && edges@[i].1 < n by {
            assert(edges@.contains(edges@[i]));
            lemma_contains_adjacent(g, edges@[i].0, edges@[i].1);
            let q = choose|q: int| 0 <= q < g[edges@[i].0 as int].len() && #[trigger] g[edges@[i].0 as int][q] as int == edges@[i].1 as int;
            assert(g[edges@[i].0 as int][q] < n);
        }
    }
    cut_edges(edges.as_slice(), table.as_slice())
}

/// Every edge of the plain greedy cut is an edge of the graph whose ends lie
/// on different sides under the plain greedy placement.
pub proof fn lemma_plain_cut_is_cut(g: Seq<Seq<usize>>)
    ensures
        forall|e: Edge| #[trigger] cut_by(all_edges_of(g), plain_sides(g, g.len() as int)).contains(e)
            ==> all_edges_of(g).contains(e) && plain_sides(g, g.len() as int)[e.0 as int] != plain_sides(
            g,
            g.len() as int,
        )[e.1 as int],
{
    lemma_cut_by(all_edges_of(g), plain_sides(g, g.len() as int));
}

/// Greedy cut: the vertices are placed in increasing order, each on the side
/// that has fewer of its already placed neighbours (`true` on a tie), and the
/// edges to placed neighbours on the other side are emitted as they arise.
pub fn max_cut_greedy_impr(graph: &Graph) -> (cut: Vec<Edge>)
    requires
        graph.wf(),
    ensures
        cut@ == greedy_cut(graph@),
        cut@.len() >= all_edges_of(graph@).len() / 2,
        forall|e: Edge| #[trigger] cut@.contains(e) <==> all_edges_of(graph@).contains(e)
            && greedy_sides(graph@, graph@.len() as int)[e.0 as int] != greedy_sides(graph@, graph@.len() as int)[e.1 as int],
{
    let n = graph.size();
    let ghost g = graph@;
    proof {
        lemma_greedy_half_of_edges(g);
        lemma_greedy_cut_is_cut(g);
    }
    let mut table: Vec<bool> = Vec::new();
    let mut i: usize = 0;
    while i < n
        invariant
            i <= n,
            table@.len() == i,
            forall|k: int| 0 <= k < i ==> !table@[k],
        decreases n - i,
    {
        table.push(false);
        i = i + 1;
    }
    let mut cut: Vec<Edge> = Vec::new();
    let mut vertex: usize = 0;
    while vertex < n
        invariant
            n == g.len(),
            g == graph@,
            well_formed(g),
            vertex <= n,
            table@.len() == n,
            table@.subrange(0, vertex as int) == greedy_sides(g, vertex as int),
            forall|k: int| vertex <= k < n ==> !table@[k],
            cut@ == greedy_cut_upto(g, vertex as int),
        decreases n - vertex,
    {
        let ghost s = greedy_sides(g, vertex as int);
        let neighbors = graph.get_neighbors(vertex);
        // Edges to placed neighbours on the `true` side, and on the other.
        let mut to_true: Vec<Edge> = Vec::new();
        let mut to_false: Vec<Edge> = Vec::new();
        let mut j: usize = 0;
        while j < neighbors.len()
            invariant
                n == g.len(),
                well_formed(g),
                vertex < n,
                neighbors@ == g[vertex as int],
                table@.len() == n,
                table@.subrange(0, vertex as int) == s,
                forall|k: int| vertex <= k < n ==> !table@[k],
                j <= neighbors@.len(),
                to_true@ == crossing_lower(g, vertex as int, j as int, s, false),
                to_false@ == crossing_lower(g, vertex as int, j as int, s, true),
            decreases neighbors@.len() - j,
        {
            let u = neighbors[j];
            assert(u < n) by {
                assert(g[vertex as int][j as int] == u);
            }
            if u < vertex {
                assert(table@[u as int] == s[u as int]);
                if table[u] {
                    to_true.push(Edge(u, vertex));
                } else {
                    to_false.push(Edge(u, vertex));
                }
            }
            j = j + 1;
        }
        proof {
            lemma_crossing_len(g, vertex as int, g[vertex as int].len() as int, s);
        }
        let side = to_true.len() <= to_false.len();
        if side {
            table.set(vertex, true);
            cut.append(&mut to_false);
        } else {
            cut.append(&mut to_true);
        }
        proof {
            assert(table@.subrange(0, vertex as int + 1) =~= s.push(side));
        }
        vertex = vertex + 1;
    }
    cut
}

/// The edges to lower neighbours on the other side are as many as the lower
/// neighbours on the other side.
proof fn lemma_crossing_len(g: Seq<Seq<usize>>, v: int, j: int, s: Seq<bool>)
    ensures
        crossing_lower(g, v, j, s, true).len() == lower_count(g, v, j, s, false),
        crossing_lower(g, v, j, s, false).len() == lower_count(g, v, j, s, true),
    decreases j,
{
    if j > 0 {
        lemma_crossing_len(g, v, j - 1, s);
    }
}

} // verus!
