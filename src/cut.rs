//! The cut that a side assignment makes: the edges whose ends lie on
//! different sides.
use vstd::prelude::*;
use crate::graph::Edge;

verus! {

/// The edges of `es` whose ends lie on different sides under `sides`, in
/// the order of `es`.
pub open spec fn cut_by(es: Seq<Edge>, sides: Seq<bool>) -> Seq<Edge>
    decreases es.len(),
{
    if es.len() == 0 {
        Seq::empty()
    } else {
        let rest = cut_by(es.drop_last(), sides);
        let e = es.last();
        if sides[e.0 as int] != sides[e.1 as int] { rest.push(e) } else { rest }
    }
}

/// Both ends of every edge of `es` have a side in `sides`.
pub open spec fn ends_in(es: Seq<Edge>, n: nat) -> bool {
    forall|i: int| 0 <= i < es.len() ==> (#[trigger] es[i]).0 < n && es[i].1 < n
}

/// Each edge of the cut is an edge of `es` whose ends lie on different sides.
pub proof fn lemma_cut_by(es: Seq<Edge>, sides: Seq<bool>)
    ensures
        forall|e: Edge| #[trigger] cut_by(es, sides).contains(e) ==> es.contains(e) && sides[e.0 as int]
            != sides[e.1 as int],
        cut_by(es, sides).len() <= es.len(),
    decreases es.len(),
{
    if es.len() > 0 {
        let init = es.drop_last();
        lemma_cut_by(init, sides);
        assert forall|e: Edge| #[trigger] cut_by(es, sides).contains(e) implies es.contains(e) && sides[e.0 as int]
            != sides[e.1 as int] by {
            if e != es.last() {
                let k = choose|k: int| 0 <= k < cut_by(es, sides).len() && cut_by(es, sides)[k] == e;
                assert(cut_by(init, sides)[k] == e);
                assert(cut_by(init, sides).contains(e));
                let t = choose|t: int| 0 <= t < init.len() && init[t] == e;
                assert(es[t] == e);
            } else {
                assert(es[es.len() - 1] == e);
                if !(sides[e.0 as int] != sides[e.1 as int]) {
                    assert(cut_by(es, sides) == cut_by(init, sides));
                }
            }
        }
    }
}

/// The cut of a concatenation is the concatenation of the cuts.
pub proof fn lemma_cut_by_append(a: Seq<Edge>, b: Seq<Edge>, sides: Seq<bool>)
    ensures
        cut_by(a + b, sides) == cut_by(a, sides) + cut_by(b, sides),
    decreases b.len(),
{
    if b.len() == 0 {
        assert(a + b =~= a);
        assert(cut_by(a, sides) + cut_by(b, sides) =~= cut_by(a, sides));
    } else {
        assert((a + b).drop_last() =~= a + b.drop_last());
        lemma_cut_by_append(a, b.drop_last(), sides);
        assert((a + b).last() == b.last());
        let e = b.last();
        if sides[e.0 as int] != sides[e.1 as int] {
            assert(cut_by(a, sides) + cut_by(b, sides) =~= (cut_by(a, sides) + cut_by(b.drop_last(), sides)).push(e));
        }
    }
}

/// The edges of `edges` whose ends lie on different sides under `sides`, in
/// their order.
pub fn cut_edges(edges: &[Edge], sides: &[bool]) -> (r: Vec<Edge>)
    requires
        ends_in(edges@, sides@.len()),
    ensures
        r@ == cut_by(edges@, sides@),
{
    let mut cut: Vec<Edge> = Vec::new();
    let mut k: usize = 0;
    while k < edges.len()
        invariant
            k <= edges@.len(),
            ends_in(edges@, sides@.len()),
            cut@ == cut_by(edges@.subrange(0, k as int), sides@),
        decreases edges@.len() - k,
    {
        let e = edges[k];
        assert(edges@.subrange(0, k as int + 1).drop_last() =~= edges@.subrange(0, k as int));
        assert(edges@.subrange(0, k as int + 1).last() == e);
        if sides[e.0] != sides[e.1] {
            cut.push(e);
        }
        k = k + 1;
    }
    assert(edges@.subrange(0, k as int) =~= edges@);
    cut
}

} // verus!
