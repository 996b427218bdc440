//! Lists of edges as the constructions produce them, and what the store
//! built from such a list has as degrees.

use crate::graph::counts::{
    col_sum, degree, degree_total, edge_total, from_edges, lemma_edge_spans, lemma_sums_empty,
    lemma_with_edge, lemma_with_edge_degrees, multiplicity, out_degree_total, row_sum, spans,
    valid_counts,
};
use crate::graph::quota::picks;
use crate::graph::store::pairs_model;
use crate::graph::tally::{lemma_tally_const, lemma_tally_sum, lemma_tally_zero, tally};
use vstd::prelude::*;

verus! {

/// One for an edge that starts at a selected vertex.
pub open spec fn starts(sel: Option<usize>) -> spec_fn((usize, usize)) -> nat {
    |e: (usize, usize)|
        if picks(sel, e.0) {
            1nat
        } else {
            0nat
        }
}

/// One for an edge that ends at a selected vertex.
pub open spec fn ends(sel: Option<usize>) -> spec_fn((usize, usize)) -> nat {
    |e: (usize, usize)|
        if picks(sel, e.1) {
            1nat
        } else {
            0nat
        }
}

/// One edge from each donor to `sink`.
pub open spec fn toward(donors: Seq<usize>, sink: usize) -> Seq<(usize, usize)> {
    Seq::new(donors.len(), |k: int| (donors[k], sink))
}

/// One edge from `head` to each donor.
pub open spec fn outward(head: usize, donors: Seq<usize>) -> Seq<(usize, usize)> {
    Seq::new(donors.len(), |k: int| (head, donors[k]))
}

/// `count` self-loops at `head`.
pub open spec fn loops_at(head: usize, count: nat) -> Seq<(usize, usize)> {
    Seq::new(count, |k: int| (head, head))
}

/// Every edge of `edges` lies between vertices of `0..n`.
pub open spec fn within(edges: Seq<(usize, usize)>, n: int) -> bool {
    forall|k: int| 0 <= k < edges.len() ==> (#[trigger] edges[k]).0 < n && edges[k].1 < n
}

/// No edge of `edges` is a self-loop.
pub open spec fn loop_free(edges: Seq<(usize, usize)>) -> bool {
    forall|k: int| 0 <= k < edges.len() ==> (#[trigger] edges[k]).0 != edges[k].1
}

/// The store built from a list of edges between vertices of `0..n` is valid
/// and lies within `0..n`; in a directed store each vertex has as out-degree
/// the edges that start at it and as in-degree those that end at it, in an
/// undirected one as degree both together; and a list without self-loops
/// makes a store without them.
pub proof fn lemma_from_edges_degrees(edges: Seq<(usize, usize)>, directed: bool, v: usize, n: int)
    requires
        within(edges, n),
    ensures
        valid_counts(from_edges(pairs_model(edges), directed), directed),
        spans(from_edges(pairs_model(edges), directed), n),
        directed ==> row_sum(from_edges(pairs_model(edges), directed), v as int, n) == tally(
            edges,
            starts(Some(v)),
        ),
        directed ==> col_sum(from_edges(pairs_model(edges), directed), v as int, n) == tally(
            edges,
            ends(Some(v)),
        ),
        !directed ==> degree(from_edges(pairs_model(edges), directed), v as int, n) == tally(
            edges,
            starts(Some(v)),
        ) + tally(edges, ends(Some(v))),
        loop_free(edges) ==> forall|x: int| #[trigger]
            multiplicity(from_edges(pairs_model(edges), directed), x, x) == 0,
    decreases edges.len(),
{
    if edges.len() > 0 {
        let front = edges.drop_last();
        let e = edges.last();
        assert(within(front, n)) by {
            assert forall|k: int| 0 <= k < front.len() implies (#[trigger] front[k]).0 < n
                && front[k].1 < n by {
                assert(front[k] == edges[k]);
            }
        }
        if loop_free(edges) {
            assert forall|k: int| 0 <= k < front.len() implies (#[trigger] front[k]).0
                != front[k].1 by {
                assert(front[k] == edges[k]);
            }
        }
        lemma_from_edges_degrees(front, directed, v, n);
        assert(pairs_model(edges).drop_last() =~= pairs_model(front));
        assert(pairs_model(edges).last() == (e.0 as int, e.1 as int));
        let m = from_edges(pairs_model(front), directed);
        assert(edges[edges.len() - 1] == e);
        lemma_with_edge(m, directed, e.0 as int, e.1 as int);
        lemma_edge_spans(m, directed, e.0 as int, e.1 as int, n);
        lemma_with_edge_degrees(m, directed, e.0 as int, e.1 as int, v as int, n);
    } else {
        lemma_sums_empty(v as int, n);
    }
}

/// One for an edge that counts towards the multiplicity of the pair
/// `(a, b)`: the pair itself, and in an undirected store its mirror.
pub open spec fn counts_as(a: usize, b: usize, directed: bool) -> spec_fn((usize, usize)) -> nat {
    |e: (usize, usize)|
        if e == (a, b) || (!directed && e == (b, a)) {
            1nat
        } else {
            0nat
        }
}

/// No pair of vertices is joined twice.
pub open spec fn simple(edges: Seq<(usize, usize)>, directed: bool) -> bool {
    forall|a: usize, b: usize| #[trigger] tally(edges, counts_as(a, b, directed)) <= 1
}

/// In the store built from a list of edges a pair has as multiplicity the
/// edges of the list that count towards it.
pub proof fn lemma_from_edges_multiplicity(
    edges: Seq<(usize, usize)>,
    directed: bool,
    a: usize,
    b: usize,
)
    ensures
        valid_counts(from_edges(pairs_model(edges), directed), directed),
        multiplicity(from_edges(pairs_model(edges), directed), a as int, b as int) == tally(
            edges,
            counts_as(a, b, directed),
        ),
    decreases edges.len(),
{
    if edges.len() > 0 {
        let front = edges.drop_last();
        let e = edges.last();
        lemma_from_edges_multiplicity(front, directed, a, b);
        assert(pairs_model(edges).drop_last() =~= pairs_model(front));
        assert(pairs_model(edges).last() == (e.0 as int, e.1 as int));
        lemma_with_edge(from_edges(pairs_model(front), directed), directed, e.0 as int, e.1 as int);
    }
}

/// A store built from a simple list of edges within `0..n` has no
/// multiplicity above one.
pub proof fn lemma_simple_store(edges: Seq<(usize, usize)>, directed: bool, n: int)
    requires
        simple(edges, directed),
        within(edges, n),
        n <= usize::MAX + 1,
    ensures
        forall|x: int, y: int| #[trigger]
            multiplicity(from_edges(pairs_model(edges), directed), x, y) <= 1,
{
    let m = from_edges(pairs_model(edges), directed);
    lemma_from_edges_degrees(edges, directed, 0, n);
    assert forall|x: int, y: int| #[trigger] multiplicity(m, x, y) <= 1 by {
        if m.contains_key((x, y)) {
            lemma_from_edges_multiplicity(edges, directed, x as usize, y as usize);
            assert(tally(edges, counts_as(x as usize, y as usize, directed)) <= 1);
        }
    }
}

/// One for an edge that starts below `k`.
pub open spec fn starts_below(k: int) -> spec_fn((usize, usize)) -> nat {
    |e: (usize, usize)|
        if e.0 < k {
            1nat
        } else {
            0nat
        }
}

/// One for an edge that ends below `k`.
pub open spec fn ends_below(k: int) -> spec_fn((usize, usize)) -> nat {
    |e: (usize, usize)|
        if e.1 < k {
            1nat
        } else {
            0nat
        }
}

/// The degrees of the vertices below `k` in the store built from a list of
/// edges sum to the ends of edges at these vertices.
pub proof fn lemma_degree_totals(edges: Seq<(usize, usize)>, directed: bool, k: int, n: int)
    requires
        within(edges, n),
        0 <= k <= n <= usize::MAX + 1,
    ensures
        directed ==> out_degree_total(from_edges(pairs_model(edges), directed), k, n) == tally(
            edges,
            starts_below(k),
        ),
        !directed ==> degree_total(from_edges(pairs_model(edges), directed), k, n) == tally(
            edges,
            starts_below(k),
        ) + tally(edges, ends_below(k)),
    decreases k,
{
    if k > 0 {
        let v = (k - 1) as usize;
        lemma_degree_totals(edges, directed, k - 1, n);
        lemma_from_edges_degrees(edges, directed, v, n);
        lemma_tally_sum(edges, starts_below(k - 1), starts(Some(v)), starts_below(k));
        lemma_tally_sum(edges, ends_below(k - 1), ends(Some(v)), ends_below(k));
    } else {
        lemma_tally_zero(edges, starts_below(0));
        lemma_tally_zero(edges, ends_below(0));
    }
}

/// The store built from a list of edges has as many edges as the list: the
/// out-degrees of a directed store sum to that number, the degrees of an
/// undirected one to twice as much.
pub proof fn lemma_edge_total(edges: Seq<(usize, usize)>, directed: bool, n: int)
    requires
        within(edges, n),
        0 <= n <= usize::MAX + 1,
    ensures
        edge_total(from_edges(pairs_model(edges), directed), directed, n) == edges.len(),
{
    lemma_degree_totals(edges, directed, n, n);
    lemma_tally_const(edges, starts_below(n), 1);
    lemma_tally_const(edges, ends_below(n), 1);
}

} // verus!
