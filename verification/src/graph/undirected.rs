//! The greedy construction of an undirected multigraph with prescribed
//! degrees.

use crate::graph::counts::{degree, degree_total, edge_total, from_edges, multiplicity, spans};
use crate::graph::edge_list::{
    counts_as, ends, lemma_from_edges_degrees, lemma_simple_store, loop_free, loops_at, outward,
    simple, starts, within,
};
use crate::graph::quota::{
    before, distinct, feed, feed_from, givers, gives, hits, keep_givers, lemma_distinct_apart,
    lemma_feed, lemma_feed_once, lemma_givers, lemma_givers_zero, lemma_sorted_desc_ordered,
    lemma_sorted_desc_tally, lemma_sorted_desc_within, picks, sort_quotas, sorted_desc, stands,
    Fed, Quota,
};
use crate::graph::store::{fails_with, holds, pairs_model, SwitchGraph};
use crate::graph::tally::{
    lemma_tally_add, lemma_tally_alike, lemma_tally_const, lemma_tally_one, lemma_tally_update,
    lemma_tally_zero, tally,
};
use vstd::prelude::*;

verus! {

/// The failure of a sequence whose degrees have an odd sum.
pub const ODD_TOTAL: &'static str = "Degree sequence is not graphical: total degree must be even";

/// The failure of a construction that could not serve a vertex.
pub const UNSATISFIED: &'static str =
    "Degree sequence is not graphical: unable to satisfy degree requirements";

/// Sum of the degrees.
pub open spec fn total_degree(d: Seq<usize>) -> nat {
    tally(d, |x: usize| x as nat)
}

/// The quotas at the start: vertex `i` gives its degree.
pub open spec fn initial_degrees(d: Seq<usize>) -> Seq<Quota> {
    Seq::new(d.len(), |i: int| Quota { give: d[i], take: 0, vertex: i as usize })
}

/// The self-loops made at a vertex of the given degree: none unless
/// self-loops are allowed and the degree is at least two, then one, or with
/// repeated edges as many as the degree pays for.
pub open spec fn loops_made(degree: usize, self_loop: bool, repeated: bool) -> nat {
    if self_loop && degree > 1 {
        if repeated {
            (degree / 2) as nat
        } else {
            1
        }
    } else {
        0
    }
}

/// The pass that serves the first quota from the others, after its
/// self-loops.
pub open spec fn head_round(s: Seq<Quota>, self_loop: bool, repeated: bool) -> Fed
    recommends
        s.len() > 0,
{
    feed(
        s.update(0, Quota { give: 0, ..s[0] }),
        Seq::empty(),
        1,
        (s[0].give - 2 * loops_made(s[0].give, self_loop, repeated)) as nat,
        None,
        repeated,
    )
}

/// The edges that a round makes: the self-loops of the first quota's vertex,
/// then one edge to each donor.
pub open spec fn round_edges(s: Seq<Quota>, self_loop: bool, repeated: bool) -> Seq<(usize, usize)>
    recommends
        s.len() > 0,
{
    loops_at(s[0].vertex, loops_made(s[0].give, self_loop, repeated)) + outward(
        s[0].vertex,
        head_round(s, self_loop, repeated).donors,
    )
}

/// A round leaves fewer quotas.
pub proof fn lemma_head_round_shrinks(s: Seq<Quota>, self_loop: bool, repeated: bool)
    requires
        s.len() > 0,
    ensures
        sorted_desc(givers(head_round(s, self_loop, repeated).quotas)).len() < s.len(),
{
    let s1 = s.update(0, Quota { give: 0, ..s[0] });
    let fed = head_round(s, self_loop, repeated);
    let rest = (s[0].give - 2 * loops_made(s[0].give, self_loop, repeated)) as nat;
    lemma_feed(s1, Seq::empty(), 1, rest, None, repeated, None, 0);
    assert(fed.quotas[0].give == 0);
    lemma_givers(fed.quotas, None, gives(None), 0);
    lemma_sorted_desc_tally(givers(fed.quotas), gives(None));
}

/// The greedy construction from the quotas `s`, with `edges` made so far:
/// as long as the first quota has something to give, its vertex gets its
/// self-loops and then one edge for each remaining unit from the others,
/// largest first; the served quotas are dropped and the rest sorted again.
/// The result is the list of edges, or nothing where a vertex could not be
/// served.
pub open spec fn serve_heads(
    s: Seq<Quota>,
    edges: Seq<(usize, usize)>,
    self_loop: bool,
    repeated: bool,
) -> Option<Seq<(usize, usize)>>
    decreases s.len(),
{
    if s.len() == 0 || s[0].give == 0 {
        Some(edges)
    } else {
        let fed = head_round(s, self_loop, repeated);
        if fed.missing > 0 {
            None
        } else {
            proof {
                lemma_head_round_shrinks(s, self_loop, repeated);
            }
            serve_heads(
                sorted_desc(givers(fed.quotas)),
                edges + round_edges(s, self_loop, repeated),
                self_loop,
                repeated,
            )
        }
    }
}

/// The edges of the greedy realization of the degree sequence `d`, or
/// nothing where the construction fails.
pub open spec fn undirected_realization(d: Seq<usize>, self_loop: bool, repeated: bool) -> Option<
    Seq<(usize, usize)>,
> {
    serve_heads(sorted_desc(initial_degrees(d)), Seq::empty(), self_loop, repeated)
}

/// Largest demand first.
pub open spec fn ordered(s: Seq<Quota>) -> bool {
    forall|i: int, j: int| 0 <= i < j < s.len() ==> before(#[trigger] s[i], #[trigger] s[j])
}

/// After a round the quotas are in order, and still no vertex has two.
pub proof fn lemma_round_quotas(s: Seq<Quota>, self_loop: bool, repeated: bool, n: int)
    requires
        s.len() > 0,
        distinct(s),
    ensures
        ordered(sorted_desc(givers(head_round(s, self_loop, repeated).quotas))),
        distinct(sorted_desc(givers(head_round(s, self_loop, repeated).quotas))),
        (forall|k: int| 0 <= k < s.len() ==> (#[trigger] s[k]).vertex < n) ==> (forall|k: int|
            0 <= k < sorted_desc(givers(head_round(s, self_loop, repeated).quotas)).len() ==> (
            #[trigger] sorted_desc(givers(head_round(s, self_loop, repeated).quotas))[k]).vertex
                < n),
{
    let fed = head_round(s, self_loop, repeated);
    let s1 = s.update(0, Quota { give: 0, ..s[0] });
    let rest = (s[0].give - 2 * loops_made(s[0].give, self_loop, repeated)) as nat;
    let kept = givers(fed.quotas);
    let s2 = sorted_desc(kept);
    lemma_sorted_desc_ordered(kept);
    lemma_feed(s1, Seq::empty(), 1, rest, None, repeated, None, n);
    assert forall|v: usize| #[trigger] tally(s2, stands(Some(v))) <= 1 by {
        lemma_sorted_desc_tally(kept, stands(Some(v)));
        lemma_givers(fed.quotas, None, stands(Some(v)), n);
        lemma_tally_alike(fed.quotas, stands(Some(v)), s, stands(Some(v)));
        assert(tally(s, stands(Some(v))) <= 1);
    }
    if forall|k: int| 0 <= k < s.len() ==> (#[trigger] s[k]).vertex < n {
        assert forall|k: int| 0 <= k < fed.quotas.len() implies (#[trigger] fed.quotas[k]).vertex
            < n by {
            assert(s[k].vertex < n);
        }
        lemma_givers(fed.quotas, None, gives(None), n);
        lemma_sorted_desc_within(kept, n);
    }
}

/// A round that serves its vertex in full turns what that vertex had to give,
/// and what the donors gave, into ends of edges.
pub proof fn lemma_round_balance(s: Seq<Quota>, self_loop: bool, repeated: bool, sel: Option<usize>)
    requires
        s.len() > 0,
        head_round(s, self_loop, repeated).missing == 0,
    ensures
        tally(round_edges(s, self_loop, repeated), starts(sel)) + tally(
            round_edges(s, self_loop, repeated),
            ends(sel),
        ) + tally(sorted_desc(givers(head_round(s, self_loop, repeated).quotas)), gives(sel))
            == tally(s, gives(sel)),
{
    let fed = head_round(s, self_loop, repeated);
    let head = s[0].vertex;
    let loops = loops_made(s[0].give, self_loop, repeated);
    let rest = (s[0].give - 2 * loops) as nat;
    let emptied = Quota { give: 0, ..s[0] };
    let s1 = s.update(0, emptied);
    let kept = givers(fed.quotas);
    let rings = loops_at(head, loops);
    let spokes = outward(head, fed.donors);
    lemma_feed(s1, Seq::empty(), 1, rest, None, repeated, sel, 0);
    assert(tally(Seq::<usize>::empty(), hits(sel)) == 0);
    lemma_tally_update(s, 0, emptied, gives(sel));
    lemma_givers(fed.quotas, sel, gives(sel), 0);
    lemma_sorted_desc_tally(kept, gives(sel));
    lemma_tally_add(rings, spokes, starts(sel));
    lemma_tally_add(rings, spokes, ends(sel));
    lemma_tally_alike(spokes, ends(sel), fed.donors, hits(sel));
    if picks(sel, head) {
        lemma_tally_const(rings, starts(sel), 1);
        lemma_tally_const(rings, ends(sel), 1);
        lemma_tally_const(spokes, starts(sel), 1);
    } else {
        lemma_tally_const(rings, starts(sel), 0);
        lemma_tally_const(rings, ends(sel), 0);
        lemma_tally_const(spokes, starts(sel), 0);
    }
}

/// The edges of a round lie between the vertices of the quotas, and without
/// self-loops allowed none of them is one: the vertex that is served stands
/// once, so after its quota was emptied it is no donor.
pub proof fn lemma_round_edges(s: Seq<Quota>, self_loop: bool, repeated: bool, n: int)
    requires
        s.len() > 0,
        distinct(s),
    ensures
        !self_loop ==> loop_free(round_edges(s, self_loop, repeated)),
        (forall|k: int| 0 <= k < s.len() ==> (#[trigger] s[k]).vertex < n) ==> within(
            round_edges(s, self_loop, repeated),
            n,
        ),
{
    let fed = head_round(s, self_loop, repeated);
    let rest = (s[0].give - 2 * loops_made(s[0].give, self_loop, repeated)) as nat;
    let s1 = s.update(0, Quota { give: 0, ..s[0] });
    let fresh = round_edges(s, self_loop, repeated);
    lemma_head_not_donor(s, self_loop, repeated);
    lemma_feed(s1, Seq::empty(), 1, rest, None, repeated, None, n);
    if !self_loop {
        assert forall|k: int| 0 <= k < fresh.len() implies (#[trigger] fresh[k]).0
            != fresh[k].1 by {
            assert(fed.donors[k] != s[0].vertex);
        }
    }
    if forall|k: int| 0 <= k < s.len() ==> (#[trigger] s[k]).vertex < n {
        assert(forall|k: int| 0 <= k < s1.len() ==> (#[trigger] s1[k]).vertex < n);
        assert(s[0].vertex < n);
        assert(within(fresh, n));
    }
}

/// What the construction keeps in balance: what the quotas still give,
/// together with the ends of the edges made.
pub proof fn lemma_serve_heads(
    s: Seq<Quota>,
    edges: Seq<(usize, usize)>,
    self_loop: bool,
    repeated: bool,
    sel: Option<usize>,
    n: int,
)
    requires
        ordered(s),
        distinct(s),
    ensures
        serve_heads(s, edges, self_loop, repeated) matches Some(all) ==> {
            &&& tally(all, starts(sel)) + tally(all, ends(sel)) == tally(edges, starts(sel))
                + tally(edges, ends(sel)) + tally(s, gives(sel))
            &&& !self_loop && loop_free(edges) ==> loop_free(all)
            &&& within(edges, n) && (forall|k: int|
                0 <= k < s.len() ==> (#[trigger] s[k]).vertex < n) ==> within(all, n)
        },
    decreases s.len(),
{
    if s.len() == 0 || s[0].give == 0 {
        assert forall|k: int| 0 <= k < s.len() implies gives(sel)(#[trigger] s[k]) == 0 by {
            if k > 0 {
                assert(before(s[0], s[k]));
            }
        }
        lemma_tally_zero(s, gives(sel));
    } else if head_round(s, self_loop, repeated).missing == 0 {
        let s2 = sorted_desc(givers(head_round(s, self_loop, repeated).quotas));
        let fresh = round_edges(s, self_loop, repeated);
        lemma_head_round_shrinks(s, self_loop, repeated);
        lemma_round_quotas(s, self_loop, repeated, n);
        lemma_round_balance(s, self_loop, repeated, sel);
        lemma_round_edges(s, self_loop, repeated, n);
        lemma_serve_heads(s2, edges + fresh, self_loop, repeated, sel, n);
        lemma_tally_add(edges, fresh, starts(sel));
        lemma_tally_add(edges, fresh, ends(sel));
        if !self_loop && loop_free(edges) {
            assert(loop_free(edges + fresh));
        }
        if within(edges, n) {
            assert(within(fresh, n) ==> within(edges + fresh, n));
        }
    }
}

/// The vertex that a round serves is none of its donors.
pub proof fn lemma_head_not_donor(s: Seq<Quota>, self_loop: bool, repeated: bool)
    requires
        s.len() > 0,
        distinct(s),
    ensures
        tally(head_round(s, self_loop, repeated).donors, hits(Some(s[0].vertex))) == 0,
        forall|k: int|
            0 <= k < head_round(s, self_loop, repeated).donors.len() ==> (
            #[trigger] head_round(s, self_loop, repeated).donors[k]) != s[0].vertex,
{
    let fed = head_round(s, self_loop, repeated);
    let head = s[0].vertex;
    let rest = (s[0].give - 2 * loops_made(s[0].give, self_loop, repeated)) as nat;
    let s1 = s.update(0, Quota { give: 0, ..s[0] });
    lemma_feed(s1, Seq::empty(), 1, rest, None, repeated, Some(head), 0);
    assert(tally(Seq::<usize>::empty(), hits(Some(head))) == 0);
    assert forall|k: int| 0 <= k < s1.len() implies gives(Some(head))(#[trigger] s1[k]) == 0 by {
        if k > 0 {
            lemma_distinct_apart(s, 0, k);
        }
    }
    lemma_tally_zero(s1, gives(Some(head)));
    lemma_tally_zero(fed.donors, hits(Some(head)));
    assert forall|k: int| 0 <= k < fed.donors.len() implies (#[trigger] fed.donors[k]) != head by {
        assert(hits(Some(head))(fed.donors[k]) == 0);
    }
}

/// Every edge made so far has an endpoint whose quota is gone, and no pair
/// of vertices was joined twice.
pub open spec fn retiring(s: Seq<Quota>, edges: Seq<(usize, usize)>) -> bool {
    forall|a: usize, b: usize| #[trigger]
        tally(edges, counts_as(a, b, false)) <= (if tally(s, stands(Some(a))) == 0 || tally(
            s,
            stands(Some(b)),
        ) == 0 {
            1nat
        } else {
            0nat
        })
}

/// After a round the vertex that was served has no quota, and no other
/// vertex has more quotas than before.
pub proof fn lemma_round_stands(s: Seq<Quota>, self_loop: bool, repeated: bool, v: usize)
    requires
        s.len() > 0,
        distinct(s),
    ensures
        tally(sorted_desc(givers(head_round(s, self_loop, repeated).quotas)), stands(Some(v)))
            <= tally(s, stands(Some(v))),
        v == s[0].vertex ==> tally(
            sorted_desc(givers(head_round(s, self_loop, repeated).quotas)),
            stands(Some(v)),
        ) == 0,
        tally(s, stands(Some(s[0].vertex))) >= 1,
{
    let fed = head_round(s, self_loop, repeated);
    let rest = (s[0].give - 2 * loops_made(s[0].give, self_loop, repeated)) as nat;
    let s1 = s.update(0, Quota { give: 0, ..s[0] });
    let kept = givers(fed.quotas);
    lemma_feed(s1, Seq::empty(), 1, rest, None, repeated, None, 0);
    lemma_sorted_desc_tally(kept, stands(Some(v)));
    lemma_givers(fed.quotas, None, stands(Some(v)), 0);
    lemma_tally_alike(fed.quotas, stands(Some(v)), s, stands(Some(v)));
    lemma_tally_one(s, stands(Some(s[0].vertex)), 0);
    if v == s[0].vertex {
        assert forall|k: int|
            0 <= k < fed.quotas.len() && (#[trigger] fed.quotas[k]).give > 0 implies stands(
            Some(v),
        )(fed.quotas[k]) == 0 by {
            if k > 0 {
                lemma_distinct_apart(s, 0, k);
            }
        }
        lemma_givers_zero(fed.quotas, stands(Some(v)));
    }
}

/// How often the edges of a round count towards a pair of vertices.
pub proof fn lemma_round_counts(s: Seq<Quota>, self_loop: bool, a: usize, b: usize)
    requires
        s.len() > 0,
        distinct(s),
    ensures
        tally(round_edges(s, self_loop, false), counts_as(a, b, false)) <= 1,
        a != s[0].vertex && b != s[0].vertex ==> tally(
            round_edges(s, self_loop, false),
            counts_as(a, b, false),
        ) == 0,
        a == s[0].vertex && b != a ==> tally(round_edges(s, self_loop, false), counts_as(a, b, false))
            <= tally(s, stands(Some(b))),
        b == s[0].vertex && b != a ==> tally(round_edges(s, self_loop, false), counts_as(a, b, false))
            <= tally(s, stands(Some(a))),
{
    let fed = head_round(s, self_loop, false);
    let head = s[0].vertex;
    let loops = loops_made(s[0].give, self_loop, false);
    let rest = (s[0].give - 2 * loops) as nat;
    let s1 = s.update(0, Quota { give: 0, ..s[0] });
    let rings = loops_at(head, loops);
    let spokes = outward(head, fed.donors);
    let c = counts_as(a, b, false);
    lemma_head_not_donor(s, self_loop, false);
    lemma_tally_add(rings, spokes, c);
    if a == head && b == head {
        lemma_tally_const(rings, c, 1);
        assert forall|k: int| 0 <= k < spokes.len() implies c(#[trigger] spokes[k]) == 0 by {
            assert(fed.donors[k] != head);
        }
        lemma_tally_zero(spokes, c);
    } else {
        lemma_tally_const(rings, c, 0);
        if a == head || b == head {
            let other = if a == head {
                b
            } else {
                a
            };
            lemma_tally_alike(spokes, c, fed.donors, hits(Some(other)));
            assert(tally(Seq::<usize>::empty(), hits(Some(other))) == 0);
            lemma_feed_once(s1, Seq::empty(), 1, rest, None, other);
            lemma_tally_alike(s1, stands(Some(other)), s, stands(Some(other)));
            assert(tally(s, stands(Some(other))) <= 1);
        } else {
            assert forall|k: int| 0 <= k < spokes.len() implies c(#[trigger] spokes[k]) == 0 by {}
            lemma_tally_zero(spokes, c);
        }
    }
}

/// A round without repeated edges joins no pair of vertices that was joined
/// before: the old edges have an endpoint without a quota, the new ones lie
/// between vertices that have one.
pub proof fn lemma_round_retiring(
    s: Seq<Quota>,
    edges: Seq<(usize, usize)>,
    self_loop: bool,
    a: usize,
    b: usize,
)
    requires
        s.len() > 0,
        distinct(s),
        retiring(s, edges),
    ensures
        tally(edges + round_edges(s, self_loop, false), counts_as(a, b, false)) <= (if tally(
            sorted_desc(givers(head_round(s, self_loop, false).quotas)),
            stands(Some(a)),
        ) == 0 || tally(
            sorted_desc(givers(head_round(s, self_loop, false).quotas)),
            stands(Some(b)),
        ) == 0 {
            1nat
        } else {
            0nat
        }),
{
    let fresh = round_edges(s, self_loop, false);
    lemma_tally_add(edges, fresh, counts_as(a, b, false));
    lemma_round_stands(s, self_loop, false, a);
    lemma_round_stands(s, self_loop, false, b);
    lemma_round_counts(s, self_loop, a, b);
    assert(tally(edges, counts_as(a, b, false)) <= (if tally(s, stands(Some(a))) == 0 || tally(
        s,
        stands(Some(b)),
    ) == 0 {
        1nat
    } else {
        0nat
    }));
}

/// Without repeated edges the construction joins no pair of vertices twice.
pub proof fn lemma_serve_heads_simple(s: Seq<Quota>, edges: Seq<(usize, usize)>, self_loop: bool)
    requires
        distinct(s),
        retiring(s, edges),
    ensures
        serve_heads(s, edges, self_loop, false) matches Some(all) ==> simple(all, false),
    decreases s.len(),
{
    if s.len() == 0 || s[0].give == 0 {
        assert forall|a: usize, b: usize| #[trigger] tally(edges, counts_as(a, b, false)) <= 1 by {
            assert(tally(edges, counts_as(a, b, false)) <= (if tally(s, stands(Some(a))) == 0
                || tally(s, stands(Some(b))) == 0 {
                1nat
            } else {
                0nat
            }));
        }
    } else if head_round(s, self_loop, false).missing == 0 {
        let s2 = sorted_desc(givers(head_round(s, self_loop, false).quotas));
        let more = edges + round_edges(s, self_loop, false);
        lemma_head_round_shrinks(s, self_loop, false);
        lemma_round_quotas(s, self_loop, false, 0);
        assert forall|a: usize, b: usize| #[trigger]
            tally(more, counts_as(a, b, false)) <= (if tally(s2, stands(Some(a))) == 0 || tally(
                s2,
                stands(Some(b)),
            ) == 0 {
                1nat
            } else {
                0nat
            }) by {
            lemma_round_retiring(s, edges, self_loop, a, b);
        }
        lemma_serve_heads_simple(s2, more, self_loop);
    }
}

/// Without repeated edges the greedy realization joins no pair of vertices
/// twice.
pub proof fn lemma_undirected_realization_simple(d: Seq<usize>, self_loop: bool)
    requires
        d.len() <= usize::MAX,
    ensures
        undirected_realization(d, self_loop, false) matches Some(edges) ==> simple(edges, false),
{
    let first = initial_degrees(d);
    let s = sorted_desc(first);
    let none: Seq<(usize, usize)> = Seq::empty();
    assert forall|w: usize| #[trigger] tally(s, stands(Some(w))) <= 1 by {
        lemma_sorted_desc_tally(first, stands(Some(w)));
        lemma_initial_degrees(d, w);
    }
    assert forall|a: usize, b: usize| #[trigger] tally(none, counts_as(a, b, false)) == 0 by {}
    lemma_serve_heads_simple(s, none, self_loop);
}

/// At the start each vertex has its degree to give and stands once.
pub proof fn lemma_initial_degrees(d: Seq<usize>, v: usize)
    requires
        d.len() <= usize::MAX,
    ensures
        tally(initial_degrees(d), gives(Some(v))) == (if v < d.len() {
            d[v as int] as nat
        } else {
            0
        }),
        tally(initial_degrees(d), stands(Some(v))) <= 1,
        tally(initial_degrees(d), stands(Some(v))) == 0 || v < d.len(),
    decreases d.len(),
{
    if d.len() > 0 {
        lemma_initial_degrees(d.drop_last(), v);
        assert(initial_degrees(d).drop_last() =~= initial_degrees(d.drop_last()));
    }
}

/// Degree invariance of the greedy realization: where the construction
/// succeeds, each vertex is an endpoint as often as the sequence asks, a
/// self-loop counted twice; every edge lies between vertices of the
/// sequence, and none is a self-loop unless self-loops are allowed.
pub proof fn lemma_undirected_realization(d: Seq<usize>, self_loop: bool, repeated: bool, v: usize)
    requires
        d.len() <= usize::MAX,
    ensures
        undirected_realization(d, self_loop, repeated) matches Some(edges) ==> {
            &&& within(edges, d.len() as int)
            &&& !self_loop ==> loop_free(edges)
            &&& tally(edges, starts(Some(v))) + tally(edges, ends(Some(v))) == (if v < d.len() {
                d[v as int] as nat
            } else {
                0
            })
        },
{
    let first = initial_degrees(d);
    let s = sorted_desc(first);
    let none: Seq<(usize, usize)> = Seq::empty();
    lemma_sorted_desc_ordered(first);
    assert(distinct(s)) by {
        assert forall|w: usize| #[trigger] tally(s, stands(Some(w))) <= 1 by {
            lemma_sorted_desc_tally(first, stands(Some(w)));
            lemma_initial_degrees(d, w);
        }
    }
    lemma_serve_heads(s, none, self_loop, repeated, Some(v), d.len() as int);
    lemma_sorted_desc_tally(first, gives(Some(v)));
    lemma_initial_degrees(d, v);
    lemma_sorted_desc_within(first, d.len() as int);
}

/// The store `m` has exactly the degrees of the sequence `d`, on the vertices
/// `0..d.len()`.
pub open spec fn realizes_undirected(m: Map<(int, int), nat>, d: Seq<usize>) -> bool {
    &&& spans(m, d.len() as int)
    &&& forall|v: int| 0 <= v < d.len() ==> #[trigger] degree(m, v, d.len() as int) == d[v]
}

/// A store with the degrees of a sequence has half as many edges as the
/// degrees of the sequence sum to.
pub proof fn lemma_realized_edge_total(m: Map<(int, int), nat>, d: Seq<usize>, k: int)
    requires
        realizes_undirected(m, d),
        0 <= k <= d.len(),
    ensures
        degree_total(m, k, d.len() as int) == total_degree(d.take(k)),
        k == d.len() ==> edge_total(m, false, d.len() as int) == total_degree(d) / 2,
    decreases k,
{
    if k > 0 {
        lemma_realized_edge_total(m, d, k - 1);
        assert(d.take(k).drop_last() =~= d.take(k - 1));
        assert(degree(m, k - 1, d.len() as int) == d[k - 1]);
    }
    if k == d.len() {
        assert(d.take(k) =~= d);
    }
}

impl SwitchGraph {
    /// Builds an undirected store in which vertex `i` has the degree of item
    /// `i` of the sequence, by the greedy construction.
    pub fn from_undirected_degree_sequence(
        degree_sequence: &[usize],
        self_loop: bool,
        repeated_edges: bool,
    ) -> (result: Result<SwitchGraph, &'static str>)
        ensures
            total_degree(degree_sequence@) % 2 != 0 ==> fails_with(result, ODD_TOTAL),
            total_degree(degree_sequence@) % 2 == 0 ==> match undirected_realization(
                degree_sequence@,
                self_loop,
                repeated_edges,
            ) {
                Some(edges) => holds(result, from_edges(pairs_model(edges), false)),
                None => fails_with(result, UNSATISFIED),
            },
            result matches Ok(g) ==> {
                &&& g.wf()
                &&& !g.directed()
                &&& realizes_undirected(g@, degree_sequence@)
                &&& edge_total(g@, false, degree_sequence@.len() as int) == total_degree(
                    degree_sequence@,
                ) / 2
                &&& !self_loop ==> forall|x: int| #[trigger] multiplicity(g@, x, x) == 0
                &&& !repeated_edges ==> forall|x: int, y: int| #[trigger]
                    multiplicity(g@, x, y) <= 1
            },
            degree_sequence@.len() == 0 ==> holds(result, Map::<(int, int), nat>::empty()),
    {
        let ghost d = degree_sequence@;
        let n = degree_sequence.len();
        let mut sum: u128 = 0;
        let mut quotas: Vec<Quota> = Vec::new();
        let mut i: usize = 0;
        assert(d.take(0) =~= Seq::<usize>::empty());
        while i < n
            invariant
                n == d.len(),
                d == degree_sequence@,
                i <= n,
                sum == total_degree(d.take(i as int)),
                sum <= i * 0xffff_ffff_ffff_ffff,
                quotas@ == initial_degrees(d.take(i as int)),
            decreases n - i,
        {
            let give = degree_sequence[i];
            proof {
                let next = d.take(i + 1);
                assert(next.drop_last() =~= d.take(i as int));
                assert(next.last() == give);
                assert(initial_degrees(next) =~= initial_degrees(d.take(i as int)).push(
                    Quota { give, take: 0, vertex: i },
                ));
            }
            sum += give as u128;
            quotas.push(Quota { give, take: 0, vertex: i });
            i += 1;
        }
        assert(d.take(n as int) =~= d);
        if sum % 2 != 0 {
            return Err(ODD_TOTAL);
        }
        if n == 0 {
            assert(initial_degrees(d) =~= Seq::<Quota>::empty());
            assert(pairs_model(Seq::<(usize, usize)>::empty()) =~= Seq::<(int, int)>::empty());
            let g = SwitchGraph::empty(false);
            proof {
                lemma_realized_edge_total(g@, d, 0);
            }
            return Ok(g);
        }
        sort_quotas(&mut quotas);
        let mut edges: Vec<(usize, usize)> = Vec::new();
        let ghost start = sorted_desc(initial_degrees(d));
        let ghost none: Seq<(usize, usize)> = Seq::empty();
        while quotas.len() > 0 && quotas[0].give > 0
            invariant
                d == degree_sequence@,
                d.len() > 0,
                total_degree(d) % 2 == 0,
                start == sorted_desc(initial_degrees(d)),
                none == Seq::<(usize, usize)>::empty(),
                serve_heads(quotas@, edges@, self_loop, repeated_edges) == serve_heads(
                    start,
                    none,
                    self_loop,
                    repeated_edges,
                ),
            decreases quotas.len(),
        {
            let ghost before_round = quotas@;
            let ghost made = edges@;
            let head = quotas[0].vertex;
            let give = quotas[0].give;
            quotas.set(0, Quota { give: 0, take: quotas[0].take, vertex: head });
            let loops: usize = if self_loop && give > 1 {
                if repeated_edges {
                    give / 2
                } else {
                    1
                }
            } else {
                0
            };
            let mut k: usize = 0;
            while k < loops
                invariant
                    k <= loops,
                    edges@ == made + loops_at(head, k as nat),
                decreases loops - k,
            {
                edges.push((head, head));
                k += 1;
                assert(edges@ =~= made + loops_at(head, k as nat));
            }
            let ghost ringed = edges@;
            let (donors, missing) = feed_from(
                &mut quotas,
                1,
                give - 2 * loops,
                None,
                repeated_edges,
            );
            if missing > 0 {
                return Err(UNSATISFIED);
            }
            k = 0;
            while k < donors.len()
                invariant
                    k <= donors.len(),
                    edges@ == ringed + outward(head, donors@).take(k as int),
                decreases donors.len() - k,
            {
                edges.push((head, donors[k]));
                k += 1;
                assert(edges@ =~= ringed + outward(head, donors@).take(k as int));
            }
            assert(edges@ =~= made + round_edges(before_round, self_loop, repeated_edges));
            keep_givers(&mut quotas);
            sort_quotas(&mut quotas);
            proof {
                lemma_head_round_shrinks(before_round, self_loop, repeated_edges);
            }
        }
        let g = SwitchGraph::from_pairs(&edges, false);
        proof {
            assert forall|v: int| 0 <= v < d.len() implies #[trigger] degree(
                g@,
                v,
                d.len() as int,
            ) == d[v] by {
                lemma_undirected_realization(d, self_loop, repeated_edges, v as usize);
                lemma_from_edges_degrees(edges@, false, v as usize, d.len() as int);
            }
            lemma_undirected_realization(d, self_loop, repeated_edges, 0);
            lemma_from_edges_degrees(edges@, false, 0, d.len() as int);
            if !repeated_edges {
                lemma_undirected_realization_simple(d, self_loop);
                lemma_simple_store(edges@, false, d.len() as int);
            }
            lemma_realized_edge_total(g@, d, d.len() as int);
        }
        Ok(g)
    }
}

} // verus!
