//! Randomized cuts: every vertex takes a side by a fair coin. The parallel
//! forms are put together from the pieces here: contiguous slices of a range,
//! the merge of per-slice results, and the rule that keeps the best of
//! repeated trials.
use vstd::prelude::*;
use rand::rngs::SmallRng;
use rand::{Rng, SeedableRng};
use crate::cut::{cut_by, cut_edges, ends_in, lemma_cut_by, lemma_cut_by_append};
use crate::graph::{all_edges_of, lemma_all_edges, well_formed, Edge, Graph};

verus! {

#[verifier::external_type_specification]
#[verifier::external_body]
pub struct ExSmallRng(SmallRng);

/// Relies on `SeedableRng::from_entropy` of rand: a generator seeded from the
/// operating system's entropy source, which panics only if that source fails.
#[verifier::external_body]
fn fresh_rng() -> SmallRng {
    SmallRng::from_entropy()
}

/// Relies on `Rng::gen::<bool>` of rand: one fair coin, read from the most
/// significant bit of the next 32-bit output.
#[verifier::external_body]
fn coin(rng: &mut SmallRng) -> bool {
    rng.gen::<bool>()
}

/// `n` sides drawn by fair coins from a generator of their own, seeded from
/// the operating system's entropy source.
pub fn random_sides(n: usize) -> (r: Vec<bool>)
    ensures
        r@.len() == n,
{
    let mut rng = fresh_rng();
    let mut sides: Vec<bool> = Vec::new();
    let mut i: usize = 0;
    while i < n
        invariant
            i <= n,
            sides@.len() == i,
        decreases n - i,
    {
        sides.push(coin(&mut rng));
        i = i + 1;
    }
    sides
}

/// The cut that the sides `sides` make on the edges of `graph`, in the order
/// of [`Graph::all_edges`].
pub fn cut_of_sides(graph: &Graph, sides: &Vec<bool>) -> (r: Vec<Edge>)
    requires
        graph.wf(),
        sides@.len() == graph@.len(),
    ensures
        r@ == cut_by(all_edges_of(graph@), sides@),
{
    let edges = graph.all_edges();
    proof {
        lemma_edges_in_range(graph@);
    }
    cut_edges(edges.as_slice(), sides.as_slice())
}

/// The ends of every edge are vertices.
pub proof fn lemma_edges_in_range(g: Seq<Seq<usize>>)
    requires
        well_formed(g),
    ensures
        ends_in(all_edges_of(g), g.len()),
{
    let es = all_edges_of(g);
    lemma_all_edges(g);
    assert forall|i: int| 0 <= i < es.len() implies (#[trigger] es[i]).0 < g.len() && es[i].1 < g.len() by {
        assert(es.contains(es[i]));
        let a = es[i].0 as int;
        let q = choose|q: int| 0 <= q < g[a].len() && #[trigger] g[a][q] as int == es[i].1 as int;
        assert(g[a][q] < g.len());
    }
}

/// Random cut: every vertex takes a side by a fair coin, and the edges whose
/// ends differ are returned in the order of [`Graph::all_edges`].
pub fn rand_aprox(graph: &Graph) -> (r: Vec<Edge>)
    requires
        graph.wf(),
    ensures
        exists|sides: Seq<bool>| sides.len() == graph@.len() && r@ == cut_by(all_edges_of(graph@), sides),
        forall|e: Edge| #[trigger] r@.contains(e) ==> all_edges_of(graph@).contains(e),
{
    let sides = random_sides(graph.size());
    proof {
        lemma_cut_by(all_edges_of(graph@), sides@);
    }
    cut_of_sides(graph, &sides)
}

/// Where slice `k` of `parts` near-equal contiguous slices of `0..len`
/// starts: the first `len % parts` slices hold one more element.
pub open spec fn slice_start(len: nat, parts: nat, k: nat) -> nat {
    k * (len / parts) + if k < len % parts { k } else { len % parts }
}

/// `parts` contiguous slices `(start, end)` of `0..len`, in order, of sizes
/// that differ by at most one.
pub fn slice_bounds(len: usize, parts: usize) -> (r: Vec<(usize, usize)>)
    requires
        parts > 0,
    ensures
        r@.len() == parts,
        forall|k: int| 0 <= k < parts ==> #[trigger] r@[k] == (
            slice_start(len as nat, parts as nat, k as nat) as usize,
            slice_start(len as nat, parts as nat, (k + 1) as nat) as usize,
        ),
{
    let q = len / parts;
    let rem = len % parts;
    let mut bounds: Vec<(usize, usize)> = Vec::new();
    let mut start: usize = 0;
    let mut k: usize = 0;
    proof {
        lemma_slice_start_bound(len as nat, parts as nat, 0);
    }
    while k < parts
        invariant
            parts > 0,
            q == len / parts,
            rem == len % parts,
            k <= parts,
            start == slice_start(len as nat, parts as nat, k as nat),
            bounds@.len() == k,
            forall|i: int| 0 <= i < k ==> #[trigger] bounds@[i] == (
                slice_start(len as nat, parts as nat, i as nat) as usize,
                slice_start(len as nat, parts as nat, (i + 1) as nat) as usize,
            ),
        decreases parts - k,
    {
        proof {
            lemma_slice_start_bound(len as nat, parts as nat, (k + 1) as nat);
        }
        if k < rem {
            assert(q + 1 <= len) by (nonlinear_arith)
                requires
                    parts > 0,
                    q == len / parts,
                    rem == len % parts,
                    rem > 0,
            {
                assert(len == parts * q + rem);
                assert(parts * q >= q);
            }
        }
        let size = if k < rem { q + 1 } else { q };
        assert(k * q + q == (k + 1) * q) by (nonlinear_arith);
        let end = start + size;
        bounds.push((start, end));
        start = end;
        k = k + 1;
    }
    bounds
}

/// Slices end where the next one starts and never pass `len`; the last one
/// ends at `len`.
pub proof fn lemma_slice_start_bound(len: nat, parts: nat, k: nat)
    requires
        parts > 0,
        k <= parts,
    ensures
        slice_start(len, parts, k) <= len,
        k == parts ==> slice_start(len, parts, k) == len,
        slice_start(len, parts, 0) == 0,
        k < parts ==> slice_start(len, parts, k) <= slice_start(len, parts, k + 1),
{
    let q = len / parts;
    let rem = len % parts;
    assert(len == parts * q + rem) by (nonlinear_arith)
        requires
            parts > 0,
            q == len / parts,
            rem == len % parts,
    ;
    assert(k * q <= parts * q) by (nonlinear_arith)
        requires
            k <= parts,
    ;
    assert(k * q + q == (k + 1) * q) by (nonlinear_arith);
    if k < parts {
        assert((k + 1) * q <= parts * q) by (nonlinear_arith)
            requires
                k + 1 <= parts,
        ;
    }
    assert(0 * q == 0);
}

/// The concatenation of `parts`, in order.
pub fn concat_parts<T: Copy>(parts: &Vec<Vec<T>>) -> (r: Vec<T>)
    ensures
        r@ == parts@.map_values(|p: Vec<T>| p@).flatten_alt(),
{
    let ghost views = parts@.map_values(|p: Vec<T>| p@);
    let mut out: Vec<T> = Vec::new();
    let mut k: usize = 0;
    while k < parts.len()
        invariant
            views == parts@.map_values(|p: Vec<T>| p@),
            k <= parts@.len(),
            out@ == views.subrange(0, k as int).flatten_alt(),
        decreases parts@.len() - k,
    {
        let part = &parts[k];
        let ghost before = out@;
        let mut j: usize = 0;
        while j < part.len()
            invariant
                j <= part@.len(),
                out@ == before + part@.subrange(0, j as int),
            decreases part@.len() - j,
        {
            out.push(part[j]);
            assert(before + part@.subrange(0, j as int + 1) =~= (before + part@.subrange(0, j as int)).push(part@[j as int]));
            j = j + 1;
        }
        assert(views.subrange(0, k as int + 1).drop_last() =~= views.subrange(0, k as int));
        assert(part@.subrange(0, j as int) =~= part@);
        k = k + 1;
    }
    assert(views.subrange(0, k as int) =~= views);
    out
}

/// Another round of trials is due while the best cut holds fewer edges than
/// half the number of vertices `n`, and fewer than the `m` edges there are: a
/// cut that holds every edge cannot grow, so the rounds stop there too.
pub open spec fn round_due(best_len: nat, n: nat, m: nat) -> bool {
    2 * best_len < n && best_len < m
}

/// Whether another round of trials is due, as [`round_due`], for a kept cut
/// of `best_len` edges on a graph of `n` vertices and `m` edges.
pub fn needs_another_round(best_len: usize, n: usize, m: usize) -> (r: bool)
    ensures
        r == round_due(best_len as nat, n as nat, m as nat),
{
    best_len < n / 2 + n % 2 && best_len < m
}

/// The best of `best` and the trials `results`, taken in order: a trial
/// replaces the kept one only when it is strictly larger.
pub open spec fn best_of(best: Seq<Edge>, results: Seq<Seq<Edge>>) -> Seq<Edge>
    decreases results.len(),
{
    if results.len() == 0 {
        best
    } else {
        let kept = best_of(best, results.drop_last());
        if results.last().len() > kept.len() { results.last() } else { kept }
    }
}

/// Keeps the best of `best` and the trials `results`, taken in order: a trial
/// replaces the kept one only when it is strictly larger.
pub fn keep_best(best: Vec<Edge>, results: Vec<Vec<Edge>>) -> (r: Vec<Edge>)
    ensures
        r@ == best_of(best@, results@.map_values(|c: Vec<Edge>| c@)),
{
    let ghost views = results@.map_values(|c: Vec<Edge>| c@);
    let mut kept = best;
    let mut results = results;
    let mut k: usize = 0;
    let n = results.len();
    let ghost orig = results@;
    while k < n
        invariant
            n == orig.len(),
            results@.len() == n,
            views == orig.map_values(|c: Vec<Edge>| c@),
            forall|i: int| k <= i < n ==> #[trigger] results@[i]@ == orig[i]@,
            k <= n,
            kept@ == best_of(best@, views.subrange(0, k as int)),
        decreases n - k,
    {
        assert(views.subrange(0, k as int + 1).drop_last() =~= views.subrange(0, k as int));
        assert(views.subrange(0, k as int + 1).last() == orig[k as int]@);
        if results[k].len() > kept.len() {
            let mut taken: Vec<Edge> = Vec::new();
            results.set_and_swap(k, &mut taken);
            kept = taken;
        }
        k = k + 1;
    }
    assert(views.subrange(0, k as int) =~= views);
    kept
}

/// Keeping the best never shrinks it: the kept cut is at least as large as
/// before and as every trial, and is the earlier one or one of the trials.
pub proof fn lemma_best_of_monotone(best: Seq<Edge>, results: Seq<Seq<Edge>>)
    ensures
        best_of(best, results).len() >= best.len(),
        forall|i: int| 0 <= i < results.len() ==> best_of(best, results).len() >= (#[trigger] results[i]).len(),
        best_of(best, results) == best || exists|i: int| 0 <= i < results.len() && best_of(best, results) == #[trigger] results[i],
    decreases results.len(),
{
    if results.len() > 0 {
        let init = results.drop_last();
        lemma_best_of_monotone(best, init);
        assert forall|i: int| 0 <= i < results.len() implies best_of(best, results).len() >= (#[trigger] results[i]).len() by {
            if i < init.len() {
                assert(results[i] == init[i]);
            }
        }
        if best_of(best, results) != best {
            if best_of(best, results) == results.last() {
                assert(best_of(best, results) == results[results.len() - 1]);
            } else {
                let i = choose|i: int| 0 <= i < init.len() && best_of(best, init) == #[trigger] init[i];
                assert(best_of(best, results) == results[i]);
            }
        }
    }
}

/// On a graph of at most one vertex no round is due, whatever is kept: the
/// rounds stop at once.
pub proof fn lemma_no_round_on_tiny_graph(g: Seq<Seq<usize>>, best_len: nat)
    requires
        well_formed(g),
        g.len() <= 1,
    ensures
        all_edges_of(g).len() == 0,
        !round_due(best_len, g.len(), all_edges_of(g).len()),
{
    lemma_all_edges(g);
    if all_edges_of(g).len() > 0 {
        let e = all_edges_of(g)[0];
        assert(all_edges_of(g).contains(e));
        let q = choose|q: int| 0 <= q < g[e.0 as int].len() && #[trigger] g[e.0 as int][q] as int == e.1 as int;
        assert(g[e.0 as int][q] < g.len());
    }
}

/// Once the kept cut holds every edge, or half as many edges as there are
/// vertices, no further round is due.
pub proof fn lemma_rounds_stop(best_len: nat, n: nat, m: nat)
    requires
        best_len >= m || 2 * best_len >= n,
    ensures
        !round_due(best_len, n, m),
{
}

/// A random cut holds only edges of the graph, each with its ends on
/// different sides under the sides that were drawn.
pub proof fn lemma_random_cut_is_cut(g: Seq<Seq<usize>>, sides: Seq<bool>)
    ensures
        forall|e: Edge| #[trigger] cut_by(all_edges_of(g), sides).contains(e) ==> all_edges_of(g).contains(e)
            && sides[e.0 as int] != sides[e.1 as int],
{
    lemma_cut_by(all_edges_of(g), sides);
}

/// Cutting the slices of an edge list one by one and joining the results in
/// slice order gives the cut of the whole list, so no edge outside the list
/// is ever returned.
pub proof fn lemma_sliced_cut(es: Seq<Edge>, sides: Seq<bool>, parts: nat)
    requires
        parts > 0,
    ensures
        Seq::new(parts, |k: int| cut_by(es.subrange(
            slice_start(es.len(), parts, k as nat) as int,
            slice_start(es.len(), parts, (k + 1) as nat) as int,
        ), sides)).flatten_alt() == cut_by(es, sides),
        forall|e: Edge| #[trigger] cut_by(es, sides).contains(e) ==> es.contains(e) && sides[e.0 as int] != sides[e.1 as int],
{
    lemma_sliced_cut_prefix(es, sides, parts, parts);
    lemma_slice_start_bound(es.len(), parts, parts);
    assert(es.subrange(0, es.len() as int) =~= es);
    lemma_cut_by(es, sides);
    assert(Seq::new(parts, |k: int| cut_by(es.subrange(
        slice_start(es.len(), parts, k as nat) as int,
        slice_start(es.len(), parts, (k + 1) as nat) as int,
    ), sides)).subrange(0, parts as int) =~= Seq::new(parts, |k: int| cut_by(es.subrange(
        slice_start(es.len(), parts, k as nat) as int,
        slice_start(es.len(), parts, (k + 1) as nat) as int,
    ), sides)));
}

proof fn lemma_sliced_cut_prefix(es: Seq<Edge>, sides: Seq<bool>, parts: nat, m: nat)
    requires
        parts > 0,
        m <= parts,
    ensures
        Seq::new(parts, |k: int| cut_by(es.subrange(
            slice_start(es.len(), parts, k as nat) as int,
            slice_start(es.len(), parts, (k + 1) as nat) as int,
        ), sides)).subrange(0, m as int).flatten_alt() == cut_by(
            es.subrange(0, slice_start(es.len(), parts, m) as int),
            sides,
        ),
    decreases m,
{
    let cuts = Seq::new(parts, |k: int| cut_by(es.subrange(
        slice_start(es.len(), parts, k as nat) as int,
        slice_start(es.len(), parts, (k + 1) as nat) as int,
    ), sides));
    lemma_slice_start_bound(es.len(), parts, m);
    if m == 0 {
        assert(cuts.subrange(0, 0).flatten_alt() =~= Seq::empty());
        assert(es.subrange(0, 0) =~= Seq::<Edge>::empty());
    } else {
        lemma_sliced_cut_prefix(es, sides, parts, (m - 1) as nat);
        lemma_slice_start_bound(es.len(), parts, (m - 1) as nat);
        let a = slice_start(es.len(), parts, (m - 1) as nat) as int;
        let b = slice_start(es.len(), parts, m) as int;
        assert(cuts.subrange(0, m as int).drop_last() =~= cuts.subrange(0, m - 1));
        assert(cuts.subrange(0, m as int).last() == cuts[m - 1]);
        assert(es.subrange(0, b) =~= es.subrange(0, a) + es.subrange(a, b));
        lemma_cut_by_append(es.subrange(0, a), es.subrange(a, b), sides);
    }
}

/// Per-slice buffers as long as their slices join to one entry per element
/// of `0..len`.
pub proof fn lemma_merged_len(bufs: Seq<Seq<bool>>, len: nat, parts: nat)
    requires
        parts > 0,
        bufs.len() == parts,
        forall|k: int| 0 <= k < parts ==> (#[trigger] bufs[k]).len() == slice_start(len, parts, (k + 1) as nat)
            - slice_start(len, parts, k as nat),
    ensures
        bufs.flatten_alt().len() == len,
{
    lemma_merged_len_prefix(bufs, len, parts, parts);
    lemma_slice_start_bound(len, parts, parts);
    assert(bufs.subrange(0, parts as int) =~= bufs);
}

proof fn lemma_merged_len_prefix(bufs: Seq<Seq<bool>>, len: nat, parts: nat, m: nat)
    requires
        parts > 0,
        m <= parts,
        bufs.len() == parts,
        forall|k: int| 0 <= k < parts ==> (#[trigger] bufs[k]).len() == slice_start(len, parts, (k + 1) as nat)
            - slice_start(len, parts, k as nat),
    ensures
        bufs.subrange(0, m as int).flatten_alt().len() == slice_start(len, parts, m),
    decreases m,
{
    lemma_slice_start_bound(len, parts, m);
    if m > 0 {
        lemma_merged_len_prefix(bufs, len, parts, (m - 1) as nat);
        lemma_slice_start_bound(len, parts, (m - 1) as nat);
        assert(bufs.subrange(0, m as int).drop_last() =~= bufs.subrange(0, m - 1));
        assert(bufs.subrange(0, m as int).last() == bufs[m - 1]);
    } else {
        assert(0 * (len / parts) == 0);
    }
}

/// How many tasks to run: the detected parallelism, or 8 where none was
/// detected.
pub fn worker_count(detected: Option<usize>) -> (r: usize)
    ensures
        r > 0,
        r == match detected {
            Some(p) if p > 0 => p,
            _ => 8,
        },
{
    match detected {
        Some(p) if p > 0 => p,
        _ => 8,
    }
}

/// The edges of `c` are the cut of the graph `g` under some full side
/// assignment.
pub open spec fn is_cut_of(g: Seq<Seq<usize>>, c: Seq<Edge>) -> bool {
    exists|sides: Seq<bool>| sides.len() == g.len() && c == cut_by(all_edges_of(g), sides)
}

/// The parallel random cut: sides drawn per slice of the vertices and joined
/// in slice order, edges classified per slice of the edge list and the cuts
/// joined in slice order. The joined sides cover every vertex, and the result
/// is the cut of the whole graph under them: only edges of the graph, each
/// once, with its ends on different sides.
pub proof fn lemma_parallel_cut(g: Seq<Seq<usize>>, bufs: Seq<Seq<bool>>, parts: nat)
    requires
        well_formed(g),
        parts > 0,
        bufs.len() == parts,
        forall|k: int| 0 <= k < parts ==> (#[trigger] bufs[k]).len() == slice_start(g.len(), parts, (k + 1) as nat)
            - slice_start(g.len(), parts, k as nat),
    ensures
        bufs.flatten_alt().len() == g.len(),
        ({
            let es = all_edges_of(g);
            let sides = bufs.flatten_alt();
            Seq::new(parts, |k: int| cut_by(es.subrange(
                slice_start(es.len(), parts, k as nat) as int,
                slice_start(es.len(), parts, (k + 1) as nat) as int,
            ), sides)).flatten_alt() == cut_by(es, sides)
        }),
        is_cut_of(g, cut_by(all_edges_of(g), bufs.flatten_alt())),
        cut_by(all_edges_of(g), bufs.flatten_alt()).no_duplicates(),
        forall|e: Edge| #[trigger] cut_by(all_edges_of(g), bufs.flatten_alt()).contains(e) ==> all_edges_of(g).contains(e)
            && bufs.flatten_alt()[e.0 as int] != bufs.flatten_alt()[e.1 as int],
{
    lemma_merged_len(bufs, g.len(), parts);
    lemma_sliced_cut(all_edges_of(g), bufs.flatten_alt(), parts);
    lemma_all_edges(g);
    lemma_cut_no_duplicates(all_edges_of(g), bufs.flatten_alt());
}

/// The cut of a list without repeats has no repeats.
pub proof fn lemma_cut_no_duplicates(es: Seq<Edge>, sides: Seq<bool>)
    requires
        es.no_duplicates(),
    ensures
        cut_by(es, sides).no_duplicates(),
    decreases es.len(),
{
    if es.len() > 0 {
        let init = es.drop_last();
        assert(init.no_duplicates()) by {
            assert forall|a: int, b: int| 0 <= a < b < init.len() implies init[a] != init[b] by {
                assert(init[a] == es[a] && init[b] == es[b]);
            }
        }
        lemma_cut_no_duplicates(init, sides);
        lemma_cut_by(init, sides);
        let c = cut_by(init, sides);
        let e = es.last();
        if sides[e.0 as int] != sides[e.1 as int] {
            assert forall|a: int, b: int| 0 <= a < b < c.push(e).len() implies c.push(e)[a] != c.push(e)[b] by {
                if b == c.len() {
                    assert(c.contains(c[a]));
                    let t = choose|t: int| 0 <= t < init.len() && init[t] == c[a];
                    assert(es[t] == c[a]);
                    assert(es[es.len() - 1] == e);
                }
            }
        }
    }
}

/// Keeping the best of cuts of the graph gives a cut of the graph, or the
/// empty list kept at the start.
pub proof fn lemma_best_is_cut(g: Seq<Seq<usize>>, best: Seq<Edge>, results: Seq<Seq<Edge>>)
    requires
        best.len() == 0 || is_cut_of(g, best),
        forall|i: int| 0 <= i < results.len() ==> is_cut_of(g, #[trigger] results[i]),
    ensures
        best_of(best, results).len() == 0 || is_cut_of(g, best_of(best, results)),
{
    lemma_best_of_monotone(best, results);
}

} // verus!
