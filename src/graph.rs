//! An undirected graph on the vertices `0..n`, stored as adjacency lists.
use vstd::prelude::*;

pub mod adjacency_matrix;
pub mod edge;

verus! {

/// An undirected edge between two vertices, written with the smaller first.
#[derive(PartialEq, Eq, Clone, Copy, Debug, Structural)]
pub struct Edge(pub usize, pub usize);

/// An undirected graph on the vertices `0..n`. Each vertex has a list of its
/// neighbours in the order in which the edges were added.
#[derive(PartialEq, Debug)]
pub struct Graph {
    adjacency_lists: Vec<Vec<usize>>,
}

/// Error returned by [`Graph::build`]: an edge names a vertex that the
/// graph does not have.
#[derive(PartialEq, Eq, Debug)]
pub struct MalformedInputError {
    pub edge: (usize, usize),
}

/// Error returned by [`Graph::new`] when the matrix is not square.
#[derive(PartialEq, Eq, Debug, Structural)]
pub struct NotQuadError;

/// `b` is a neighbour of `a` in the lists `g`.
pub open spec fn adjacent(g: Seq<Seq<usize>>, a: int, b: int) -> bool {
    0 <= a < g.len() && exists|j: int| 0 <= j < g[a].len() && #[trigger] g[a][j] as int == b
}

/// The lists describe an undirected simple graph on `0..g.len()`: neighbours
/// are vertices, no vertex is its own neighbour, no list repeats a vertex, and
/// adjacency is symmetric.
pub open spec fn well_formed(g: Seq<Seq<usize>>) -> bool {
    &&& forall|a: int, j: int|
        0 <= a < g.len() && 0 <= j < g[a].len() ==> #[trigger] g[a][j] < g.len() && g[a][j] != a
    &&& forall|a: int| 0 <= a < g.len() ==> (#[trigger] g[a]).no_duplicates()
    &&& forall|a: int, b: int| #[trigger] adjacent(g, a, b) ==> adjacent(g, b, a)
}

/// The lists after adding the edge `{a, b}`: `b` is appended to the list of
/// `a` unless already there, then `a` to the list of `b`. A loop `{a, a}` is
/// not part of the model and changes nothing.
pub open spec fn with_edge(g: Seq<Seq<usize>>, a: usize, b: usize) -> Seq<Seq<usize>> {
    if a == b {
        g
    } else {
        with_arc(with_arc(g, a, b), b, a)
    }
}

/// The lists after appending `b` to the list of `a`, unless it is there.
pub open spec fn with_arc(g: Seq<Seq<usize>>, a: usize, b: usize) -> Seq<Seq<usize>> {
    if g[a as int].contains(b) {
        g
    } else {
        g.update(a as int, g[a as int].push(b))
    }
}

/// The lists after adding the edges `es` one after another.
pub open spec fn with_edges(g: Seq<Seq<usize>>, es: Seq<(usize, usize)>) -> Seq<Seq<usize>>
    decreases es.len(),
{
    if es.len() == 0 {
        g
    } else {
        let e = es.last();
        with_edge(with_edges(g, es.drop_last()), e.0, e.1)
    }
}

/// Both endpoints of every pair are below `n`.
pub open spec fn pairs_in_range(es: Seq<(usize, usize)>, n: nat) -> bool {
    forall|i: int| 0 <= i < es.len() ==> (#[trigger] es[i]).0 < n && es[i].1 < n
}

/// `n` empty lists.
pub open spec fn empty_lists(n: nat) -> Seq<Seq<usize>> {
    Seq::new(n, |i: int| Seq::<usize>::empty())
}


/// Adding an edge keeps the lists well formed and adds exactly that edge.
pub proof fn lemma_with_edge(g: Seq<Seq<usize>>, a: usize, b: usize)
    requires
        well_formed(g),
        a < g.len(),
        b < g.len(),
    ensures
        well_formed(with_edge(g, a, b)),
        with_edge(g, a, b).len() == g.len(),
        forall|x: int, y: int|
            #[trigger] adjacent(with_edge(g, a, b), x, y) <==> adjacent(g, x, y) || (a != b && (
            (x == a && y == b) || (x == b && y == a))),
{
    let h = with_edge(g, a, b);
    if a != b {
        let g1 = with_arc(g, a, b);
        lemma_push_adjacent(g, a, b);
        lemma_push_adjacent(g1, b, a);
        assert forall|x: int, y: int|
            #[trigger] adjacent(h, x, y) <==> adjacent(g, x, y) || ((x == a && y == b) || (x == b && y == a)) by {
            assert(adjacent(h, x, y) <==> adjacent(g1, x, y) || (x == b && y == a));
            assert(adjacent(g1, x, y) <==> adjacent(g, x, y) || (x == a && y == b));
        }
        assert forall|x: int, j: int| 0 <= x < h.len() && 0 <= j < h[x].len() implies
            #[trigger] h[x][j] < h.len() && h[x][j] != x by {
            if j < g[x].len() {
                assert(h[x][j] == g[x][j]);
            }
        }
        assert forall|x: int| 0 <= x < h.len() implies (#[trigger] h[x]).no_duplicates() by {
            assert(g[x].no_duplicates());
            assert(g1[x].no_duplicates());
        }
        assert forall|x: int, y: int| #[trigger] adjacent(h, x, y) implies adjacent(h, y, x) by {
            if adjacent(g, x, y) {
                assert(adjacent(g, y, x));
            }
        }
    }
}

/// For a vertex `a`, containment in its list is adjacency.
pub proof fn lemma_contains_adjacent(g: Seq<Seq<usize>>, a: usize, b: usize)
    requires
        a < g.len(),
    ensures
        g[a as int].contains(b) <==> adjacent(g, a as int, b as int),
{
    if adjacent(g, a as int, b as int) {
        let j = choose|j: int| 0 <= j < g[a as int].len() && #[trigger] g[a as int][j] as int == b as int;
        assert(g[a as int][j] == b);
    }
}

/// Appending `b` to the list of `a` unless it is there adds exactly `b` as a
/// neighbour of `a`.
proof fn lemma_push_adjacent(g: Seq<Seq<usize>>, a: usize, b: usize)
    requires
        a < g.len(),
    ensures
        with_arc(g, a, b).len() == g.len(),
        forall|x: int, y: int|
            #[trigger] adjacent(with_arc(g, a, b), x, y) <==> adjacent(g, x, y) || (x == a && y == b),
        forall|x: int| 0 <= x < g.len() && x != a ==> with_arc(g, a, b)[x] == g[x],
        with_arc(g, a, b)[a as int] == g[a as int] || (!g[a as int].contains(b) && with_arc(g, a, b)[a as int] == g[a as int].push(b)),
{
    let g1 = with_arc(g, a, b);
    assert forall|x: int, y: int| #[trigger] adjacent(g1, x, y) <==> adjacent(g, x, y) || (x == a && y == b) by {
        if x == a {
            if g[a as int].contains(b) {
                if y == b {
                    let j = choose|j: int| 0 <= j < g[x].len() && g[x][j] == b;
                    assert(g[x][j] as int == y);
                }
            } else {
                assert(g1[x] == g[x].push(b));
                if adjacent(g, x, y) {
                    let j = choose|j: int| 0 <= j < g[x].len() && #[trigger] g[x][j] as int == y;
                    assert(g1[x][j] as int == y);
                }
                if y == b {
                    assert(g1[x][g[x].len() as int] as int == y);
                }
                if adjacent(g1, x, y) && y != b {
                    let j = choose|j: int| 0 <= j < g1[x].len() && #[trigger] g1[x][j] as int == y;
                    assert(j < g[x].len());
                    assert(g[x][j] as int == y);
                }
            }
        }
    }
}

/// The edges of `g[i][0..j]` that lead to a larger vertex, as `Edge(i, x)`.
pub open spec fn upper_edges(g: Seq<Seq<usize>>, i: int, j: int) -> Seq<Edge>
    decreases j,
{
    if j <= 0 {
        Seq::empty()
    } else {
        let rest = upper_edges(g, i, j - 1);
        let x = g[i][j - 1];
        if x as int > i { rest.push(Edge(i as usize, x)) } else { rest }
    }
}

/// The edges of the vertices `0..k`, each listed once from its smaller end,
/// vertex by vertex and in list order.
pub open spec fn edges_upto(g: Seq<Seq<usize>>, k: int) -> Seq<Edge>
    decreases k,
{
    if k <= 0 {
        Seq::empty()
    } else {
        edges_upto(g, k - 1) + upper_edges(g, k - 1, g[k - 1].len() as int)
    }
}

/// Every undirected edge of `g` once, as `Edge(a, b)` with `a < b`.
pub open spec fn all_edges_of(g: Seq<Seq<usize>>) -> Seq<Edge> {
    edges_upto(g, g.len() as int)
}

/// The pair at position `i` of `es` joins `x` and `y` and is no loop.
pub open spec fn pair_joins(es: Seq<(usize, usize)>, i: int, x: int, y: int) -> bool {
    &&& es[i].0 != es[i].1
    &&& (es[i].0 == x && es[i].1 == y) || (es[i].0 == y && es[i].1 == x)
}

/// The pairs of the entries set in the rows `0..r` of `m`, row by row.
pub open spec fn matrix_pairs(m: Seq<Seq<bool>>, r: int) -> Seq<(usize, usize)>
    decreases r,
{
    if r <= 0 {
        Seq::empty()
    } else {
        matrix_pairs(m, r - 1) + row_pairs(m[r - 1], r - 1, m[r - 1].len() as int)
    }
}

/// The pairs `(r, i)` for the entries `i < j` set in `row`.
pub open spec fn row_pairs(row: Seq<bool>, r: int, j: int) -> Seq<(usize, usize)>
    decreases j,
{
    if j <= 0 {
        Seq::empty()
    } else {
        let rest = row_pairs(row, r, j - 1);
        if row[j - 1] { rest.push((r as usize, (j - 1) as usize)) } else { rest }
    }
}

/// Every row of `m` is as long as `m` has rows.
pub open spec fn is_square(m: Seq<Seq<bool>>) -> bool {
    forall|r: int| 0 <= r < m.len() ==> (#[trigger] m[r]).len() == m.len()
}

/// Adding the pairs `es` keeps the lists well formed and adds exactly the
/// edges that they join.
pub proof fn lemma_with_edges(g: Seq<Seq<usize>>, es: Seq<(usize, usize)>)
    requires
        well_formed(g),
        pairs_in_range(es, g.len()),
    ensures
        well_formed(with_edges(g, es)),
        with_edges(g, es).len() == g.len(),
        forall|x: int, y: int|
            #[trigger] adjacent(with_edges(g, es), x, y) <==> adjacent(g, x, y) || exists|i: int|
                0 <= i < es.len() && #[trigger] pair_joins(es, i, x, y),
    decreases es.len(),
{
    if es.len() > 0 {
        let init = es.drop_last();
        assert(pairs_in_range(init, g.len())) by {
            assert forall|i: int| 0 <= i < init.len() implies (#[trigger] init[i]).0 < g.len() && init[i].1 < g.len() by {
                assert(init[i] == es[i]);
            }
        }
        lemma_with_edges(g, init);
        let e = es.last();
        assert(es[es.len() - 1] == e);
        lemma_with_edge(with_edges(g, init), e.0, e.1);
        let h = with_edges(g, es);
        assert forall|x: int, y: int|
            #[trigger] adjacent(h, x, y) <==> adjacent(g, x, y) || exists|i: int|
                0 <= i < es.len() && #[trigger] pair_joins(es, i, x, y) by {
            if exists|i: int| 0 <= i < es.len() && #[trigger] pair_joins(es, i, x, y) {
                let i = choose|i: int| 0 <= i < es.len() && #[trigger] pair_joins(es, i, x, y);
                if i < init.len() {
                    assert(pair_joins(init, i, x, y));
                }
            }
            if exists|i: int| 0 <= i < init.len() && #[trigger] pair_joins(init, i, x, y) {
                let i = choose|i: int| 0 <= i < init.len() && #[trigger] pair_joins(init, i, x, y);
                assert(pair_joins(es, i, x, y));
            }
            if e.0 != e.1 && ((x == e.0 && y == e.1) || (x == e.1 && y == e.0)) {
                assert(pair_joins(es, es.len() - 1, x, y));
            }
        }
    }
}

/// The listed edges of `g[i][0..j]` are those to larger neighbours, once each.
proof fn lemma_upper_edges(g: Seq<Seq<usize>>, i: int, j: int)
    requires
        well_formed(g),
        0 <= i < g.len(),
        0 <= j <= g[i].len(),
    ensures
        upper_edges(g, i, j).no_duplicates(),
        forall|t: int| 0 <= t < upper_edges(g, i, j).len() ==>
            (#[trigger] upper_edges(g, i, j)[t]).0 == i && upper_edges(g, i, j)[t].0 < upper_edges(g, i, j)[t].1,
        forall|e: Edge| #[trigger] upper_edges(g, i, j).contains(e) <==> e.0 == i && e.0 < e.1 && exists|t: int|
            0 <= t < j && #[trigger] g[i][t] == e.1,
    decreases j,
{
    if j > 0 {
        lemma_upper_edges(g, i, j - 1);
        let rest = upper_edges(g, i, j - 1);
        let x = g[i][j - 1];
        assert forall|e: Edge| #[trigger] upper_edges(g, i, j).contains(e) <==> e.0 == i && e.0 < e.1 && exists|t: int|
            0 <= t < j && #[trigger] g[i][t] == e.1 by {
            if x as int > i {
                assert(upper_edges(g, i, j) == rest.push(Edge(i as usize, x)));
                if upper_edges(g, i, j).contains(e) && e != Edge(i as usize, x) {
                    let k = choose|k: int| 0 <= k < upper_edges(g, i, j).len() && upper_edges(g, i, j)[k] == e;
                    assert(rest[k] == e);
                    assert(rest.contains(e));
                }
                if e == Edge(i as usize, x) {
                    assert(g[i][j - 1] == e.1);
                }
                if e.0 == i && e.0 < e.1 && exists|t: int| 0 <= t < j && #[trigger] g[i][t] == e.1 {
                    let t = choose|t: int| 0 <= t < j && #[trigger] g[i][t] == e.1;
                    if t < j - 1 {
                        assert(rest.contains(e));
                        let k = choose|k: int| 0 <= k < rest.len() && rest[k] == e;
                        assert(upper_edges(g, i, j)[k] == e);
                    } else {
                        assert(upper_edges(g, i, j)[rest.len() as int] == e);
                    }
                }
            } else {
                if e.0 == i && e.0 < e.1 && exists|t: int| 0 <= t < j && #[trigger] g[i][t] == e.1 {
                    let t = choose|t: int| 0 <= t < j && #[trigger] g[i][t] == e.1;
                    assert(t != j - 1);
                    assert(rest.contains(e));
                }
            }
        }
        if x as int > i {
            assert forall|a: int, b: int| 0 <= a < b < upper_edges(g, i, j).len() implies
                upper_edges(g, i, j)[a] != upper_edges(g, i, j)[b] by {
                if b == rest.len() {
                    assert(upper_edges(g, i, j)[a] == rest[a]);
                    assert(rest.contains(rest[a]));
                    let t = choose|t: int| 0 <= t < j - 1 && #[trigger] g[i][t] == rest[a].1;
                    assert(g[i].no_duplicates());
                }
            }
        }
    }
}

/// The listed edges of the vertices `0..k` are the edges with the smaller
/// end below `k`, each once and with the smaller end first.
pub proof fn lemma_edges_upto(g: Seq<Seq<usize>>, k: int)
    requires
        well_formed(g),
        0 <= k <= g.len(),
    ensures
        edges_upto(g, k).no_duplicates(),
        forall|t: int| 0 <= t < edges_upto(g, k).len() ==> (#[trigger] edges_upto(g, k)[t]).0 < edges_upto(g, k)[t].1,
        forall|e: Edge| #[trigger] edges_upto(g, k).contains(e) <==> e.0 < k && e.0 < e.1 && adjacent(g, e.0 as int, e.1 as int),
    decreases k,
{
    if k > 0 {
        lemma_edges_upto(g, k - 1);
        let i = k - 1;
        lemma_upper_edges(g, i, g[i].len() as int);
        let a = edges_upto(g, k - 1);
        let b = upper_edges(g, i, g[i].len() as int);
        assert(edges_upto(g, k) == a + b);
        assert forall|e: Edge| #[trigger] edges_upto(g, k).contains(e) <==> e.0 < k && e.0 < e.1 && adjacent(g, e.0 as int, e.1 as int) by {
            if (a + b).contains(e) {
                let t = choose|t: int| 0 <= t < (a + b).len() && (a + b)[t] == e;
                if t < a.len() {
                    assert(a.contains(e));
                } else {
                    assert(b[t - a.len()] == e);
                    assert(b.contains(e));
                    let q = choose|q: int| 0 <= q < g[i].len() && #[trigger] g[i][q] == e.1;
                    assert(g[i][q] as int == e.1 as int);
                }
            }
            if e.0 < k && e.0 < e.1 && adjacent(g, e.0 as int, e.1 as int) {
                if e.0 < k - 1 {
                    assert(a.contains(e));
                    let t = choose|t: int| 0 <= t < a.len() && a[t] == e;
                    assert((a + b)[t] == e);
                } else {
                    let q = choose|q: int| 0 <= q < g[i].len() && #[trigger] g[i][q] as int == e.1 as int;
                    assert(g[i][q] == e.1);
                    assert(b.contains(e));
                    let t = choose|t: int| 0 <= t < b.len() && b[t] == e;
                    assert((a + b)[a.len() + t] == e);
                }
            }
        }
        assert forall|t: int| 0 <= t < edges_upto(g, k).len() implies (#[trigger] edges_upto(g, k)[t]).0 < edges_upto(g, k)[t].1 by {
            if t < a.len() {
                assert(edges_upto(g, k)[t] == a[t]);
            } else {
                assert(edges_upto(g, k)[t] == b[t - a.len()]);
            }
        }
        assert forall|p: int, q: int| 0 <= p < q < (a + b).len() implies (a + b)[p] != (a + b)[q] by {
            if p < a.len() && q >= a.len() {
                assert(a.contains(a[p]));
                assert(b[q - a.len()].0 == i);
            } else if p >= a.len() {
                assert((a + b)[p] == b[p - a.len()]);
                assert((a + b)[q] == b[q - a.len()]);
            }
        }
    }
}

/// `all_edges_of(g)` lists each edge of `g` once, with the smaller end first.
pub proof fn lemma_all_edges(g: Seq<Seq<usize>>)
    requires
        well_formed(g),
    ensures
        all_edges_of(g).no_duplicates(),
        forall|t: int| 0 <= t < all_edges_of(g).len() ==> (#[trigger] all_edges_of(g)[t]).0 < all_edges_of(g)[t].1,
        forall|e: Edge| #[trigger] all_edges_of(g).contains(e) <==> e.0 < e.1 && adjacent(g, e.0 as int, e.1 as int),
{
    lemma_edges_upto(g, g.len() as int);
    assert forall|e: Edge| #[trigger] all_edges_of(g).contains(e) <==> e.0 < e.1 && adjacent(g, e.0 as int, e.1 as int) by {
        if e.0 < e.1 && adjacent(g, e.0 as int, e.1 as int) {
            assert(e.0 < g.len());
        }
    }
}

/// The edges `es` as pairs of endpoints.
pub open spec fn edge_pairs(es: Seq<Edge>) -> Seq<(usize, usize)> {
    es.map_values(|e: Edge| (e.0, e.1))
}

/// Building a graph on as many vertices from the edge list of `g` gives the
/// same edges: the same set, and as many.
pub proof fn lemma_round_trip(g: Seq<Seq<usize>>)
    requires
        well_formed(g),
    ensures
        ({
            let h = with_edges(empty_lists(g.len()), edge_pairs(all_edges_of(g)));
            &&& well_formed(h)
            &&& pairs_in_range(edge_pairs(all_edges_of(g)), g.len())
            &&& all_edges_of(h).to_set() == all_edges_of(g).to_set()
            &&& all_edges_of(h).len() == all_edges_of(g).len()
        }),
{
    let n = g.len();
    let e0 = empty_lists(n);
    let all = all_edges_of(g);
    let ps = edge_pairs(all);
    lemma_all_edges(g);
    assert(well_formed(e0));
    assert forall|i: int| 0 <= i < ps.len() implies (#[trigger] ps[i]).0 < n && ps[i].1 < n by {
        assert(all.contains(all[i]));
        let j = choose|j: int| 0 <= j < g[all[i].0 as int].len() && #[trigger] g[all[i].0 as int][j] as int == all[i].1 as int;
        assert(g[all[i].0 as int][j] < n);
    }
    lemma_with_edges(e0, ps);
    let h = with_edges(e0, ps);
    assert forall|x: int, y: int| adjacent(h, x, y) <==> #[trigger] adjacent(g, x, y) by {
        assert(!adjacent(e0, x, y));
        if adjacent(h, x, y) {
            let i = choose|i: int| 0 <= i < ps.len() && #[trigger] pair_joins(ps, i, x, y);
            assert(all.contains(all[i]));
            assert(adjacent(g, all[i].0 as int, all[i].1 as int));
        }
        if adjacent(g, x, y) {
            let j = choose|j: int| 0 <= j < g[x].len() && #[trigger] g[x][j] as int == y;
            assert(g[x][j] != x);
            let e = if x < y { Edge(x as usize, y as usize) } else { Edge(y as usize, x as usize) };
            assert(adjacent(g, y, x));
            assert(all.contains(e));
            let i = choose|i: int| 0 <= i < all.len() && all[i] == e;
            assert(pair_joins(ps, i, x, y));
        }
    }
    lemma_all_edges(h);
    assert(all_edges_of(h).to_set() =~= all.to_set()) by {
        assert forall|e: Edge| all_edges_of(h).contains(e) <==> all.contains(e) by {
            assert(adjacent(h, e.0 as int, e.1 as int) <==> adjacent(g, e.0 as int, e.1 as int));
        }
    }
    all.unique_seq_to_set();
    all_edges_of(h).unique_seq_to_set();
}

/// The pairs of the rows `0..r` are the set entries of those rows.
proof fn lemma_matrix_pairs(m: Seq<Seq<bool>>, r: int)
    requires
        0 <= r <= m.len(),
        m.len() <= usize::MAX,
        forall|q: int| 0 <= q < m.len() ==> (#[trigger] m[q]).len() <= usize::MAX,
    ensures
        forall|q: int| 0 <= q < matrix_pairs(m, r).len() ==> {
            let p = #[trigger] matrix_pairs(m, r)[q];
            p.0 < r && p.1 < m[p.0 as int].len() && m[p.0 as int][p.1 as int]
        },
        forall|a: int, b: int| 0 <= a < r && 0 <= b < m[a].len() && #[trigger] m[a][b] ==> exists|q: int|
            0 <= q < matrix_pairs(m, r).len() && #[trigger] matrix_pairs(m, r)[q] == (a as usize, b as usize),
    decreases r,
{
    if r > 0 {
        lemma_matrix_pairs(m, r - 1);
        lemma_row_pairs(m[r - 1], r - 1, m[r - 1].len() as int);
        let a = matrix_pairs(m, r - 1);
        let b = row_pairs(m[r - 1], r - 1, m[r - 1].len() as int);
        assert(matrix_pairs(m, r) == a + b);
        assert forall|x: int, y: int| 0 <= x < r && 0 <= y < m[x].len() && #[trigger] m[x][y] implies exists|q: int|
            0 <= q < matrix_pairs(m, r).len() && #[trigger] matrix_pairs(m, r)[q] == (x as usize, y as usize) by {
            if x < r - 1 {
                let q = choose|q: int| 0 <= q < a.len() && #[trigger] a[q] == (x as usize, y as usize);
                assert((a + b)[q] == a[q]);
            } else {
                let q = choose|q: int| 0 <= q < b.len() && #[trigger] b[q] == ((r - 1) as usize, y as usize);
                assert((a + b)[a.len() + q] == b[q]);
            }
        }
        assert forall|q: int| 0 <= q < matrix_pairs(m, r).len() implies {
            let p = #[trigger] matrix_pairs(m, r)[q];
            p.0 < r && p.1 < m[p.0 as int].len() && m[p.0 as int][p.1 as int]
        } by {
            if q < a.len() {
                assert((a + b)[q] == a[q]);
            } else {
                assert((a + b)[q] == b[q - a.len()]);
            }
        }
    }
}

/// The pairs of `row[0..j]` are `(r, i)` for its set entries.
proof fn lemma_row_pairs(row: Seq<bool>, r: int, j: int)
    requires
        0 <= j <= row.len(),
        0 <= r <= usize::MAX,
        row.len() <= usize::MAX,
    ensures
        forall|q: int| 0 <= q < row_pairs(row, r, j).len() ==> {
            let p = #[trigger] row_pairs(row, r, j)[q];
            p.0 == r && p.1 < j && row[p.1 as int]
        },
        forall|i: int| 0 <= i < j && #[trigger] row[i] ==> exists|q: int|
            0 <= q < row_pairs(row, r, j).len() && #[trigger] row_pairs(row, r, j)[q] == (r as usize, i as usize),
    decreases j,
{
    if j > 0 {
        lemma_row_pairs(row, r, j - 1);
        let rest = row_pairs(row, r, j - 1);
        assert forall|i: int| 0 <= i < j && #[trigger] row[i] implies exists|q: int|
            0 <= q < row_pairs(row, r, j).len() && #[trigger] row_pairs(row, r, j)[q] == (r as usize, i as usize) by {
            if i < j - 1 {
                let q = choose|q: int| 0 <= q < rest.len() && #[trigger] rest[q] == (r as usize, i as usize);
                assert(row_pairs(row, r, j)[q] == rest[q]);
            } else {
                assert(row_pairs(row, r, j)[rest.len() as int] == (r as usize, i as usize));
            }
        }
        assert forall|q: int| 0 <= q < row_pairs(row, r, j).len() implies {
            let p = #[trigger] row_pairs(row, r, j)[q];
            p.0 == r && p.1 < j && row[p.1 as int]
        } by {
            if q < rest.len() {
                assert(row_pairs(row, r, j)[q] == rest[q]);
            }
        }
    }
}

/// The graph of a square matrix joins `x` and `y` exactly where they differ
/// and the matrix has `(x, y)` or `(y, x)` set.
pub proof fn lemma_matrix_graph(m: Seq<Seq<bool>>)
    requires
        is_square(m),
        m.len() <= usize::MAX,
    ensures
        pairs_in_range(matrix_pairs(m, m.len() as int), m.len()),
        well_formed(with_edges(empty_lists(m.len()), matrix_pairs(m, m.len() as int))),
        forall|x: int, y: int|
            #[trigger] adjacent(with_edges(empty_lists(m.len()), matrix_pairs(m, m.len() as int)), x, y) <==> 0 <= x
                < m.len() && 0 <= y < m.len() && x != y && (m[x][y] || m[y][x]),
{
    let n = m.len() as int;
    let mp = matrix_pairs(m, n);
    assert forall|q: int| 0 <= q < m.len() implies (#[trigger] m[q]).len() <= usize::MAX by {
        assert(m[q].len() == m.len());
    }
    lemma_matrix_pairs(m, n);
    assert forall|q: int| 0 <= q < mp.len() implies (#[trigger] mp[q]).0 < n && mp[q].1 < n by {
        assert(m[mp[q].0 as int].len() == n);
    }
    let e0 = empty_lists(m.len());
    assert(well_formed(e0));
    lemma_with_edges(e0, mp);
    let h = with_edges(e0, mp);
    assert forall|x: int, y: int| #[trigger] adjacent(h, x, y) <==> 0 <= x < m.len() && 0 <= y < m.len() && x != y && (
    m[x][y] || m[y][x]) by {
        assert(!adjacent(e0, x, y));
        if adjacent(h, x, y) {
            let i = choose|i: int| 0 <= i < mp.len() && #[trigger] pair_joins(mp, i, x, y);
            assert(m[mp[i].0 as int].len() == n);
        }
        if 0 <= x < m.len() && 0 <= y < m.len() && x != y {
            assert(m[x].len() == n && m[y].len() == n);
            if m[x][y] {
                let q = choose|q: int| 0 <= q < mp.len() && #[trigger] mp[q] == (x as usize, y as usize);
                assert(pair_joins(mp, q, x, y));
            } else if m[y][x] {
                let q = choose|q: int| 0 <= q < mp.len() && #[trigger] mp[q] == (y as usize, x as usize);
                assert(pair_joins(mp, q, x, y));
            }
        }
    }
}

impl View for Graph {
    type V = Seq<Seq<usize>>;

    closed spec fn view(&self) -> Seq<Seq<usize>> {
        self.adjacency_lists@.map_values(|l: Vec<usize>| l@)
    }
}

impl Graph {
    /// The graph satisfies the invariant of its representation.
    pub open spec fn wf(&self) -> bool {
        well_formed(self@)
    }

    /// A graph on `n` vertices without edges.
    pub fn new_empty(n: usize) -> (g: Graph)
        ensures
            g.wf(),
            g@ == empty_lists(n as nat),
    {
        let mut adjacency_lists: Vec<Vec<usize>> = Vec::new();
        let mut i: usize = 0;
        while i < n
            invariant
                i <= n,
                adjacency_lists@.len() == i,
                forall|k: int| 0 <= k < i ==> (#[trigger] adjacency_lists@[k])@.len() == 0,
            decreases n - i,
        {
            adjacency_lists.push(Vec::new());
            i = i + 1;
        }
        let g = Graph { adjacency_lists };
        assert(g@ =~~= empty_lists(n as nat));
        g
    }

    /// The number of vertices.
    pub fn size(&self) -> (r: usize)
        ensures
            r == self@.len(),
    {
        self.adjacency_lists.len()
    }

    /// The neighbours of `vertex`, in the order in which they were added.
    pub fn get_neighbors(&self, vertex: usize) -> (r: Vec<usize>)
        requires
            vertex < self@.len(),
        ensures
            r@ == self@[vertex as int],
    {
        self.adjacency_lists[vertex].clone()
    }

    /// Adds the edges in order, as [`Graph::add_edge`] does one.
    pub fn add_edges(&mut self, edges: &[(usize, usize)])
        requires
            old(self).wf(),
            pairs_in_range(edges@, old(self)@.len()),
        ensures
            final(self).wf(),
            final(self)@ == with_edges(old(self)@, edges@),
    {
        let ghost g0 = self@;
        let mut k: usize = 0;
        while k < edges.len()
            invariant
                k <= edges@.len(),
                self.wf(),
                self@ == with_edges(g0, edges@.subrange(0, k as int)),
                self@.len() == g0.len(),
                pairs_in_range(edges@, g0.len()),
            decreases edges@.len() - k,
        {
            let e = edges[k];
            assert(e == edges@[k as int]);
            self.add_edge(&e);
            assert(edges@.subrange(0, k as int + 1).drop_last() =~= edges@.subrange(0, k as int));
            k = k + 1;
        }
        assert(edges@.subrange(0, k as int) =~= edges@);
    }

    /// The graph on `n` vertices with the edges `edges`, added in order; an
    /// endpoint that is not a vertex is refused.
    pub fn build(n: usize, edges: &[(usize, usize)]) -> (r: Result<Graph, MalformedInputError>)
        ensures
            r is Ok <==> pairs_in_range(edges@, n as nat),
            r matches Ok(g) ==> g.wf() && g@ == with_edges(empty_lists(n as nat), edges@),
            r matches Ok(g) ==> forall|x: int, y: int|
                #[trigger] adjacent(g@, x, y) <==> exists|i: int| 0 <= i < edges@.len() && #[trigger] pair_joins(edges@, i, x, y),
            r matches Err(e) ==> exists|i: int|
                0 <= i < edges@.len() && edges@[i] == e.edge && !(edges@[i].0 < n && edges@[i].1 < n),
    {
        let mut k: usize = 0;
        while k < edges.len()
            invariant
                k <= edges@.len(),
                pairs_in_range(edges@.subrange(0, k as int), n as nat),
            decreases edges@.len() - k,
        {
            if edges[k].0 >= n || edges[k].1 >= n {
                return Err(MalformedInputError { edge: edges[k] });
            }
            assert(pairs_in_range(edges@.subrange(0, k as int + 1), n as nat)) by {
                assert forall|i: int| 0 <= i < k + 1 implies (#[trigger] edges@.subrange(0, k as int + 1)[i]).0 < n
                    && edges@.subrange(0, k as int + 1)[i].1 < n by {
                    if i < k {
                        assert(edges@.subrange(0, k as int + 1)[i] == edges@.subrange(0, k as int)[i]);
                    }
                }
            }
            k = k + 1;
        }
        assert(edges@.subrange(0, k as int) =~= edges@);
        let mut g = Graph::new_empty(n);
        g.add_edges(edges);
        proof {
            lemma_with_edges(empty_lists(n as nat), edges@);
            assert forall|x: int, y: int| !adjacent(empty_lists(n as nat), x, y) by {}
        }
        Ok(g)
    }

    /// The graph whose vertex `r` is joined to `i` where `data[r][i]` is set,
    /// the entries added row by row; a matrix that is not square is refused.
    pub fn new(data: Vec<Vec<bool>>) -> (r: Result<Graph, NotQuadError>)
        ensures
            r is Ok <==> is_square(data@.map_values(|row: Vec<bool>| row@)),
            r matches Ok(g) ==> g.wf() && g@ == with_edges(
                empty_lists(data@.len()),
                matrix_pairs(data@.map_values(|row: Vec<bool>| row@), data@.len() as int),
            ),
            r matches Ok(g) ==> forall|x: int, y: int|
                #[trigger] adjacent(g@, x, y) <==> 0 <= x < data@.len() && 0 <= y < data@.len() && x != y && (
                data@[x]@[y] || data@[y]@[x]),
    {
        let ghost m = data@.map_values(|row: Vec<bool>| row@);
        let n = data.len();
        let mut r: usize = 0;
        while r < n
            invariant
                n == data@.len(),
                m == data@.map_values(|row: Vec<bool>| row@),
                r <= n,
                forall|q: int| 0 <= q < r ==> (#[trigger] m[q]).len() == n,
            decreases n - r,
        {
            if data[r].len() != n {
                assert(m[r as int].len() != m.len());
                return Err(NotQuadError);
            }
            r = r + 1;
        }
        let mut g = Graph::new_empty(n);
        let mut row: usize = 0;
        while row < n
            invariant
                n == data@.len(),
                m == data@.map_values(|row: Vec<bool>| row@),
                is_square(m),
                row <= n,
                g.wf(),
                g@.len() == n,
                g@ == with_edges(empty_lists(n as nat), matrix_pairs(m, row as int)),
            decreases n - row,
        {
            let mut i: usize = 0;
            while i < n
                invariant
                    n == data@.len(),
                    m == data@.map_values(|row: Vec<bool>| row@),
                    is_square(m),
                    row < n,
                    i <= n,
                    g.wf(),
                    g@.len() == n,
                    g@ == with_edges(
                        empty_lists(n as nat),
                        matrix_pairs(m, row as int) + row_pairs(m[row as int], row as int, i as int),
                    ),
                decreases n - i,
            {
                assert(m[row as int].len() == n);
                let ghost before = matrix_pairs(m, row as int) + row_pairs(m[row as int], row as int, i as int);
                if data[row][i] {
                    g.add_edge(&(row, i));
                    assert(before.push((row, i)) =~= matrix_pairs(m, row as int) + row_pairs(
                        m[row as int],
                        row as int,
                        i as int + 1,
                    ));
                    assert(before.push((row, i)).drop_last() =~= before);
                } else {
                    assert(before =~= matrix_pairs(m, row as int) + row_pairs(m[row as int], row as int, i as int + 1));
                }
                i = i + 1;
            }
            assert(m[row as int].len() == n);
            row = row + 1;
        }
        proof {
            lemma_matrix_graph(m);
        }
        Ok(g)
    }

    /// Every edge once, as `Edge(a, b)` with `a < b`: vertex by vertex, each
    /// in the order of its list.
    pub fn all_edges(&self) -> (r: Vec<Edge>)
        requires
            self.wf(),
        ensures
            r@ == all_edges_of(self@),
    {
        let mut edges: Vec<Edge> = Vec::new();
        let n = self.adjacency_lists.len();
        let mut i: usize = 0;
        while i < n
            invariant
                n == self@.len(),
                i <= n,
                edges@ == edges_upto(self@, i as int),
            decreases n - i,
        {
            let list = &self.adjacency_lists[i];
            assert(list@ == self@[i as int]);
            let mut j: usize = 0;
            while j < list.len()
                invariant
                    n == self@.len(),
                    i < n,
                    list@ == self@[i as int],
                    j <= list@.len(),
                    edges@ == edges_upto(self@, i as int) + upper_edges(self@, i as int, j as int),
                decreases list@.len() - j,
            {
                let x = list[j];
                if x > i {
                    edges.push(Edge(i, x));
                }
                proof {
                    assert(edges@ =~= edges_upto(self@, i as int) + upper_edges(self@, i as int, j as int + 1));
                }
                j = j + 1;
            }
            i = i + 1;
        }
        edges
    }

    /// The number of edges.
    pub fn edge_size(&self) -> (r: usize)
        requires
            self.wf(),
        ensures
            r == all_edges_of(self@).len(),
    {
        self.all_edges().len()
    }

    /// Adds the undirected edge `{edge.0, edge.1}`; an edge already present,
    /// or a loop, changes nothing.
    pub fn add_edge(&mut self, edge: &(usize, usize))
        requires
            old(self).wf(),
            edge.0 < old(self)@.len(),
            edge.1 < old(self)@.len(),
        ensures
            final(self).wf(),
            final(self)@ == with_edge(old(self)@, edge.0, edge.1),
    {
        let a = edge.0;
        let b = edge.1;
        proof {
            lemma_with_edge(self@, a, b);
        }
        if a == b {
            return;
        }
        let ghost g0 = self@;
        if !list_contains(&self.adjacency_lists[a], b) {
            self.adjacency_lists[a].push(b);
        }
        assert(self@ =~~= with_arc(g0, a, b));
        if !list_contains(&self.adjacency_lists[b], a) {
            self.adjacency_lists[b].push(a);
        }
        assert(self@ =~~= with_edge(g0, a, b));
    }

    /// Whether `{edge.0, edge.1}` is an edge.
    pub fn contains_edge(&self, edge: &(usize, usize)) -> (r: bool)
        requires
            self.wf(),
            edge.0 < self@.len(),
            edge.1 < self@.len(),
        ensures
            r == adjacent(self@, edge.0 as int, edge.1 as int),
    {
        proof {
            lemma_contains_adjacent(self@, edge.0, edge.1);
            lemma_contains_adjacent(self@, edge.1, edge.0);
        }
        list_contains(&self.adjacency_lists[edge.0], edge.1) || list_contains(
            &self.adjacency_lists[edge.1],
            edge.0,
        )
    }
}

/// Whether `x` occurs in `l`.
fn list_contains(l: &Vec<usize>, x: usize) -> (r: bool)
    ensures
        r == l@.contains(x),
{
    let mut i: usize = 0;
    while i < l.len()
        invariant
            i <= l@.len(),
            forall|k: int| 0 <= k < i ==> l@[k] != x,
        decreases l@.len() - i,
    {
        if l[i] == x {
            return true;
        }
        i = i + 1;
    }
    false
}

} // verus!
