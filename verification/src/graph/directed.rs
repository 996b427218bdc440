//! The greedy construction of a directed multigraph with prescribed out- and
//! in-degrees.

use crate::graph::counts::{
    edge_total, from_edges, in_degree, multiplicity, out_degree, out_degree_total, spans,
};
use crate::graph::edge_list::{
    counts_as, ends, lemma_from_edges_degrees, lemma_simple_store, loop_free, simple, starts,
    toward, within,
};
use crate::graph::quota::{
    distinct, feed, feed_from, gives, hits, lemma_distinct_apart, lemma_feed, lemma_feed_once,
    lemma_sorted_desc_tally, lemma_sorted_desc_within, picks, sort_quotas, sorted_desc, stands,
    takes, Fed, Quota,
};
use crate::graph::store::{fails_with, holds, pairs_model, SwitchGraph};
use crate::graph::tally::{
    lemma_tally_add, lemma_tally_alike, lemma_tally_const, lemma_tally_one, lemma_tally_update,
    lemma_tally_zero, tally,
};
use vstd::prelude::*;

verus! {

/// The failure of a sequence in which a vertex is to take edges and to give
/// none.
pub const NO_OUT_DEGREE: &'static str =
    "Degree sequence is not graphical: some vertices have zero out-degree but positive in-degree";

/// The failure of a sequence in which a vertex is to give edges and to take
/// none.
pub const NO_IN_DEGREE: &'static str =
    "Degree sequence is not graphical: some vertices have zero in-degree but positive out-degree";

/// The failure of a sequence whose out-degrees and in-degrees differ in sum.
pub const UNBALANCED: &'static str =
    "Degree sequence is not graphical: total out-degree != total in-degree";

/// The failure of a construction that could not serve a vertex.
pub const NOT_GRAPHICAL: &'static str = "Degree sequence is not graphical...";

/// Some vertex has in-degree and no out-degree.
pub open spec fn lacks_out(d: Seq<(usize, usize)>) -> bool {
    exists|i: int| 0 <= i < d.len() && (#[trigger] d[i]).0 == 0 && d[i].1 > 0
}

/// Some vertex has out-degree and no in-degree.
pub open spec fn lacks_in(d: Seq<(usize, usize)>) -> bool {
    exists|i: int| 0 <= i < d.len() && (#[trigger] d[i]).1 == 0 && d[i].0 > 0
}

/// Sum of the out-degrees.
pub open spec fn total_out(d: Seq<(usize, usize)>) -> nat {
    tally(d, |p: (usize, usize)| p.0 as nat)
}

/// Sum of the in-degrees.
pub open spec fn total_in(d: Seq<(usize, usize)>) -> nat {
    tally(d, |p: (usize, usize)| p.1 as nat)
}

/// The quotas at the start: vertex `i` gives its out-degree and takes its
/// in-degree.
pub open spec fn initial_quotas(d: Seq<(usize, usize)>) -> Seq<Quota> {
    Seq::new(d.len(), |i: int| Quota { give: d[i].0, take: d[i].1, vertex: i as usize })
}

/// One for a quota that still has to take.
pub open spec fn wants() -> spec_fn(Quota) -> nat {
    |q: Quota|
        if q.take > 0 {
            1nat
        } else {
            0nat
        }
}

/// The first position from `from` on whose quota still has to take, or the
/// length if there is none.
pub open spec fn first_taker(s: Seq<Quota>, from: int) -> int
    decreases s.len() - from,
{
    if from < 0 || from >= s.len() {
        s.len() as int
    } else if s[from].take > 0 {
        from
    } else {
        first_taker(s, from + 1)
    }
}

pub proof fn lemma_first_taker(s: Seq<Quota>, from: int)
    requires
        0 <= from,
    ensures
        from <= first_taker(s, from) || first_taker(s, from) == s.len(),
        first_taker(s, from) <= s.len(),
        first_taker(s, from) < s.len() ==> s[first_taker(s, from)].take > 0,
        forall|k: int| from <= k < first_taker(s, from) ==> (#[trigger] s[k]).take == 0,
    decreases s.len() - from,
{
    if from < s.len() && s[from].take == 0 {
        lemma_first_taker(s, from + 1);
    }
}

/// The quotas after the first taker was served, if it could be served in
/// full.
pub open spec fn round(s: Seq<Quota>, self_loop: bool, repeated: bool) -> Fed
    recommends
        first_taker(s, 0) < s.len(),
{
    let i = first_taker(s, 0);
    feed(
        s.update(i, Quota { take: 0, ..s[i] }),
        Seq::empty(),
        0,
        s[i].take as nat,
        if self_loop {
            None
        } else {
            Some(s[i].vertex)
        },
        repeated,
    )
}

/// A round leaves one quota less that has to take.
pub proof fn lemma_round_shrinks(s: Seq<Quota>, self_loop: bool, repeated: bool)
    requires
        first_taker(s, 0) < s.len(),
    ensures
        tally(sorted_desc(round(s, self_loop, repeated).quotas), wants()) < tally(s, wants()),
{
    let i = first_taker(s, 0);
    lemma_first_taker(s, 0);
    let zeroed = Quota { take: 0, ..s[i] };
    let s1 = s.update(i, zeroed);
    let fed = round(s, self_loop, repeated);
    lemma_tally_update(s, i, zeroed, wants());
    lemma_feed(
        s1,
        Seq::empty(),
        0,
        s[i].take as nat,
        if self_loop {
            None
        } else {
            Some(s[i].vertex)
        },
        repeated,
        None,
        0,
    );
    lemma_tally_alike(fed.quotas, wants(), s1, wants());
    lemma_sorted_desc_tally(fed.quotas, wants());
}

/// The greedy construction from the quotas `s`, with `edges` made so far:
/// as long as a quota has to take, the first such is served in full from the
/// others, largest first, and the quotas are sorted again. The result is the
/// list of edges with the quotas that are left, or nothing where a vertex
/// could not be served.
pub open spec fn serve_takers(
    s: Seq<Quota>,
    edges: Seq<(usize, usize)>,
    self_loop: bool,
    repeated: bool,
) -> Option<(Seq<(usize, usize)>, Seq<Quota>)>
    decreases tally(s, wants()),
{
    let i = first_taker(s, 0);
    if i >= s.len() {
        Some((edges, s))
    } else {
        let fed = round(s, self_loop, repeated);
        if fed.missing > 0 {
            None
        } else {
            proof {
                lemma_round_shrinks(s, self_loop, repeated);
            }
            serve_takers(
                sorted_desc(fed.quotas),
                edges + toward(fed.donors, s[i].vertex),
                self_loop,
                repeated,
            )
        }
    }
}

/// The edges of the greedy realization of the degree sequence `d`, or
/// nothing where the construction fails.
pub open spec fn directed_realization(d: Seq<(usize, usize)>, self_loop: bool, repeated: bool)
    -> Option<Seq<(usize, usize)>> {
    match serve_takers(sorted_desc(initial_quotas(d)), Seq::empty(), self_loop, repeated) {
        Some((edges, _)) => Some(edges),
        None => None,
    }
}

/// What the construction keeps in balance: what the quotas still take and
/// give, together with the ends and starts of the edges made.
pub proof fn lemma_serve_takers(
    s: Seq<Quota>,
    edges: Seq<(usize, usize)>,
    self_loop: bool,
    repeated: bool,
    sel: Option<usize>,
    n: int,
)
    ensures
        serve_takers(s, edges, self_loop, repeated) matches Some((all, rest)) ==> {
            &&& forall|k: int| 0 <= k < rest.len() ==> (#[trigger] rest[k]).take == 0
            &&& tally(all, ends(sel)) == tally(edges, ends(sel)) + tally(s, takes(sel))
            &&& tally(all, starts(sel)) + tally(rest, gives(sel)) == tally(edges, starts(sel))
                + tally(s, gives(sel))
            &&& !self_loop && loop_free(edges) ==> loop_free(all)
            &&& within(edges, n) && (forall|k: int|
                0 <= k < s.len() ==> (#[trigger] s[k]).vertex < n) ==> within(all, n)
        },
    decreases tally(s, wants()),
{
    let i = first_taker(s, 0);
    lemma_first_taker(s, 0);
    if i >= s.len() {
        lemma_tally_zero(s, takes(sel));
    } else {
        let fed = round(s, self_loop, repeated);
        if fed.missing == 0 {
            let sink = s[i].vertex;
            let need = s[i].take as nat;
            let barred = if self_loop {
                None
            } else {
                Some(sink)
            };
            let zeroed = Quota { take: 0, ..s[i] };
            let s1 = s.update(i, zeroed);
            let s2 = sorted_desc(fed.quotas);
            let fresh = toward(fed.donors, sink);
            lemma_round_shrinks(s, self_loop, repeated);
            lemma_serve_takers(s2, edges + fresh, self_loop, repeated, sel, n);
            lemma_feed(s1, Seq::empty(), 0, need, barred, repeated, sel, n);
            lemma_tally_update(s, i, zeroed, takes(sel));
            lemma_tally_update(s, i, zeroed, gives(sel));
            lemma_tally_alike(fed.quotas, takes(sel), s1, takes(sel));
            lemma_sorted_desc_tally(fed.quotas, takes(sel));
            lemma_sorted_desc_tally(fed.quotas, gives(sel));
            lemma_tally_add(edges, fresh, ends(sel));
            lemma_tally_add(edges, fresh, starts(sel));
            lemma_tally_alike(fresh, starts(sel), fed.donors, hits(sel));
            if picks(sel, sink) {
                lemma_tally_const(fresh, ends(sel), 1);
            } else {
                lemma_tally_const(fresh, ends(sel), 0);
            }
            assert(tally(Seq::<usize>::empty(), hits(sel)) == 0);
            if !self_loop && loop_free(edges) {
                assert(loop_free(edges + fresh));
            }
            if within(edges, n) && (forall|k: int|
                0 <= k < s.len() ==> (#[trigger] s[k]).vertex < n) {
                assert(forall|k: int| 0 <= k < s1.len() ==> (#[trigger] s1[k]).vertex < n);
                assert(within(edges + fresh, n));
                lemma_sorted_desc_within(fed.quotas, n);
            }
        }
    }
}

/// Every edge made so far goes to a vertex that has no more to take, and no
/// edge was made twice.
pub open spec fn settled(s: Seq<Quota>, edges: Seq<(usize, usize)>) -> bool {
    forall|a: usize, b: usize| #[trigger]
        tally(edges, counts_as(a, b, true)) <= (if tally(s, takes(Some(b))) == 0 {
            1nat
        } else {
            0nat
        })
}

/// A round without repeated edges keeps the edges settled: the vertex that
/// is served had no edge yet, and gets at most one from each other vertex.
pub proof fn lemma_round_settled(
    s: Seq<Quota>,
    edges: Seq<(usize, usize)>,
    self_loop: bool,
    a: usize,
    b: usize,
)
    requires
        first_taker(s, 0) < s.len(),
        distinct(s),
        settled(s, edges),
        round(s, self_loop, false).missing == 0,
    ensures
        tally(
            edges + toward(round(s, self_loop, false).donors, s[first_taker(s, 0)].vertex),
            counts_as(a, b, true),
        ) <= (if tally(sorted_desc(round(s, self_loop, false).quotas), takes(Some(b))) == 0 {
            1nat
        } else {
            0nat
        }),
{
    let i = first_taker(s, 0);
    lemma_first_taker(s, 0);
    let sink = s[i].vertex;
    let need = s[i].take as nat;
    let barred = if self_loop {
        None
    } else {
        Some(sink)
    };
    let zeroed = Quota { take: 0, ..s[i] };
    let s1 = s.update(i, zeroed);
    let fed = round(s, self_loop, false);
    let fresh = toward(fed.donors, sink);
    lemma_tally_add(edges, fresh, counts_as(a, b, true));
    lemma_feed(s1, Seq::empty(), 0, need, barred, false, None, 0);
    lemma_tally_alike(fed.quotas, takes(Some(b)), s1, takes(Some(b)));
    lemma_sorted_desc_tally(fed.quotas, takes(Some(b)));
    lemma_tally_update(s, i, zeroed, takes(Some(b)));
    assert(tally(edges, counts_as(a, b, true)) <= (if tally(s, takes(Some(b))) == 0 {
        1nat
    } else {
        0nat
    }));
    if b == sink {
        // No edge went to the sink before: it still had to take.
        lemma_tally_one(s, takes(Some(b)), i);
        assert(tally(edges, counts_as(a, b, true)) == 0);
        // Its only quota was zeroed.
        assert forall|k: int| 0 <= k < s1.len() implies takes(Some(b))(#[trigger] s1[k]) == 0 by {
            if k != i {
                lemma_distinct_apart(s, i, k);
            }
        }
        lemma_tally_zero(s1, takes(Some(b)));
        // Each donor gave once.
        lemma_tally_alike(fresh, counts_as(a, b, true), fed.donors, hits(Some(a)));
        assert(tally(Seq::<usize>::empty(), hits(Some(a))) == 0);
        assert(s1.take(0) =~= Seq::<Quota>::empty());
        lemma_feed_once(s1, Seq::empty(), 0, need, barred, a);
        lemma_tally_alike(s1, stands(Some(a)), s, stands(Some(a)));
        assert(tally(s, stands(Some(a))) <= 1);
    } else {
        assert forall|k: int| 0 <= k < fresh.len() implies counts_as(a, b, true)(
            #[trigger] fresh[k],
        ) == 0 by {}
        lemma_tally_zero(fresh, counts_as(a, b, true));
    }
}

/// A round keeps the quotas of different vertices.
pub proof fn lemma_round_distinct(s: Seq<Quota>, self_loop: bool, repeated: bool)
    requires
        first_taker(s, 0) < s.len(),
        distinct(s),
    ensures
        distinct(sorted_desc(round(s, self_loop, repeated).quotas)),
{
    let i = first_taker(s, 0);
    lemma_first_taker(s, 0);
    let s1 = s.update(i, Quota { take: 0, ..s[i] });
    let fed = round(s, self_loop, repeated);
    lemma_feed(
        s1,
        Seq::empty(),
        0,
        s[i].take as nat,
        if self_loop {
            None
        } else {
            Some(s[i].vertex)
        },
        repeated,
        None,
        0,
    );
    assert forall|v: usize| #[trigger]
        tally(sorted_desc(fed.quotas), stands(Some(v))) <= 1 by {
        lemma_sorted_desc_tally(fed.quotas, stands(Some(v)));
        lemma_tally_alike(fed.quotas, stands(Some(v)), s, stands(Some(v)));
        assert(tally(s, stands(Some(v))) <= 1);
    }
}

/// Without repeated edges the construction makes no edge twice.
pub proof fn lemma_serve_takers_simple(s: Seq<Quota>, edges: Seq<(usize, usize)>, self_loop: bool)
    requires
        distinct(s),
        settled(s, edges),
    ensures
        serve_takers(s, edges, self_loop, false) matches Some((all, rest)) ==> simple(all, true),
    decreases tally(s, wants()),
{
    let i = first_taker(s, 0);
    lemma_first_taker(s, 0);
    if i >= s.len() {
        assert forall|a: usize, b: usize| #[trigger] tally(edges, counts_as(a, b, true)) <= 1 by {
            assert(tally(edges, counts_as(a, b, true)) <= (if tally(s, takes(Some(b))) == 0 {
                1nat
            } else {
                0nat
            }));
        }
    } else {
        let fed = round(s, self_loop, false);
        if fed.missing == 0 {
            let s2 = sorted_desc(fed.quotas);
            let more = edges + toward(fed.donors, s[i].vertex);
            lemma_round_shrinks(s, self_loop, false);
            lemma_round_distinct(s, self_loop, false);
            assert forall|a: usize, b: usize| #[trigger]
                tally(more, counts_as(a, b, true)) <= (if tally(s2, takes(Some(b))) == 0 {
                    1nat
                } else {
                    0nat
                }) by {
                lemma_round_settled(s, edges, self_loop, a, b);
            }
            lemma_serve_takers_simple(s2, more, self_loop);
        }
    }
}

/// Without repeated edges the greedy realization joins no pair of vertices
/// twice.
pub proof fn lemma_directed_realization_simple(d: Seq<(usize, usize)>, self_loop: bool)
    requires
        d.len() <= usize::MAX,
    ensures
        directed_realization(d, self_loop, false) matches Some(edges) ==> simple(edges, true),
{
    let first = initial_quotas(d);
    let s = sorted_desc(first);
    let none: Seq<(usize, usize)> = Seq::empty();
    assert forall|v: usize| #[trigger] tally(s, stands(Some(v))) <= 1 by {
        lemma_sorted_desc_tally(first, stands(Some(v)));
        lemma_initial_stands(d, v);
    }
    assert forall|a: usize, b: usize| #[trigger] tally(none, counts_as(a, b, true)) == 0 by {}
    lemma_serve_takers_simple(s, none, self_loop);
}

/// At the start each vertex has one quota.
pub proof fn lemma_initial_stands(d: Seq<(usize, usize)>, v: usize)
    requires
        d.len() <= usize::MAX,
    ensures
        tally(initial_quotas(d), stands(Some(v))) <= 1,
        tally(initial_quotas(d), stands(Some(v))) == 0 || v < d.len(),
    decreases d.len(),
{
    if d.len() > 0 {
        lemma_initial_stands(d.drop_last(), v);
        assert(initial_quotas(d).drop_last() =~= initial_quotas(d.drop_last()));
    }
}

/// At the start each vertex has its degrees to give and to take.
pub proof fn lemma_initial_quotas(d: Seq<(usize, usize)>, sel: Option<usize>)
    requires
        d.len() <= usize::MAX,
    ensures
        sel matches Some(v) ==> tally(initial_quotas(d), gives(sel)) == (if v < d.len() {
            d[v as int].0 as nat
        } else {
            0
        }) && tally(initial_quotas(d), takes(sel)) == (if v < d.len() {
            d[v as int].1 as nat
        } else {
            0
        }),
        sel is None ==> tally(initial_quotas(d), gives(sel)) == total_out(d) && tally(
            initial_quotas(d),
            takes(sel),
        ) == total_in(d),
    decreases d.len(),
{
    if d.len() > 0 {
        lemma_initial_quotas(d.drop_last(), sel);
        assert(initial_quotas(d).drop_last() =~= initial_quotas(d.drop_last()));
    }
}

/// Degree invariance of the greedy realization: where the out-degrees and
/// the in-degrees have the same sum and the construction succeeds, as many
/// edges start and end at each vertex as the sequence asks, every edge lies
/// between vertices of the sequence, and none is a self-loop unless
/// self-loops are allowed.
pub proof fn lemma_directed_realization(
    d: Seq<(usize, usize)>,
    self_loop: bool,
    repeated: bool,
    v: usize,
)
    requires
        d.len() <= usize::MAX,
        total_out(d) == total_in(d),
    ensures
        directed_realization(d, self_loop, repeated) matches Some(edges) ==> {
            &&& within(edges, d.len() as int)
            &&& !self_loop ==> loop_free(edges)
            &&& v < d.len() ==> tally(edges, starts(Some(v))) == d[v as int].0 && tally(
                edges,
                ends(Some(v)),
            ) == d[v as int].1
            &&& v >= d.len() ==> tally(edges, starts(Some(v))) == 0 && tally(edges, ends(Some(v)))
                == 0
        },
{
    let s = sorted_desc(initial_quotas(d));
    let none: Seq<(usize, usize)> = Seq::empty();
    if let Some((all, rest)) = serve_takers(s, none, self_loop, repeated) {
        lemma_serve_takers(s, none, self_loop, repeated, None, d.len() as int);
        lemma_serve_takers(s, none, self_loop, repeated, Some(v), d.len() as int);
        lemma_sorted_desc_tally(initial_quotas(d), gives(None));
        lemma_sorted_desc_tally(initial_quotas(d), takes(None));
        lemma_sorted_desc_tally(initial_quotas(d), gives(Some(v)));
        lemma_sorted_desc_tally(initial_quotas(d), takes(Some(v)));
        lemma_initial_quotas(d, None);
        lemma_initial_quotas(d, Some(v));
        lemma_sorted_desc_within(initial_quotas(d), d.len() as int);
        // Every edge has one start and one end, so as much was given as taken.
        lemma_tally_alike(all, starts(None), all, ends(None));
        assert(tally(rest, gives(None)) == 0);
        lemma_tally_zero(rest, gives(None));
        lemma_tally_zero(rest, gives(Some(v)));
    }
}

/// The store `m` has exactly the degrees of the sequence `d`, on the vertices
/// `0..d.len()`.
pub open spec fn realizes_directed(m: Map<(int, int), nat>, d: Seq<(usize, usize)>) -> bool {
    &&& spans(m, d.len() as int)
    &&& forall|v: int|
        0 <= v < d.len() ==> #[trigger] out_degree(m, v, d.len() as int) == d[v].0
    &&& forall|v: int| 0 <= v < d.len() ==> #[trigger] in_degree(m, v, d.len() as int) == d[v].1
}

/// A store with the degrees of a sequence has as many edges as the
/// out-degrees of the sequence sum to.
pub proof fn lemma_realized_edge_total(m: Map<(int, int), nat>, d: Seq<(usize, usize)>, k: int)
    requires
        realizes_directed(m, d),
        0 <= k <= d.len(),
    ensures
        out_degree_total(m, k, d.len() as int) == total_out(d.take(k)),
        k == d.len() ==> edge_total(m, true, d.len() as int) == total_out(d),
    decreases k,
{
    if k > 0 {
        lemma_realized_edge_total(m, d, k - 1);
        assert(d.take(k).drop_last() =~= d.take(k - 1));
        assert(out_degree(m, k - 1, d.len() as int) == d[k - 1].0);
    }
    if k == d.len() {
        assert(d.take(k) =~= d);
    }
}

impl SwitchGraph {
    /// Builds a directed store in which vertex `i` has the out-degree and the
    /// in-degree of item `i` of the sequence, by the greedy construction.
    pub fn from_directed_degree_sequence(
        degree_sequence: &[(usize, usize)],
        self_loop: bool,
        repeated_edges: bool,
    ) -> (result: Result<SwitchGraph, &'static str>)
        ensures
            lacks_out(degree_sequence@) ==> fails_with(result, NO_OUT_DEGREE),
            !lacks_out(degree_sequence@) && lacks_in(degree_sequence@) ==> fails_with(
                result,
                NO_IN_DEGREE,
            ),
            !lacks_out(degree_sequence@) && !lacks_in(degree_sequence@) && total_out(
                degree_sequence@,
            ) != total_in(degree_sequence@) ==> fails_with(result, UNBALANCED),
            !lacks_out(degree_sequence@) && !lacks_in(degree_sequence@) && total_out(
                degree_sequence@,
            ) == total_in(degree_sequence@) ==> match directed_realization(
                degree_sequence@,
                self_loop,
                repeated_edges,
            ) {
                Some(edges) => holds(result, from_edges(pairs_model(edges), true)),
                None => fails_with(result, NOT_GRAPHICAL),
            },
            result matches Ok(g) ==> {
                &&& g.wf()
                &&& g.directed()
                &&& realizes_directed(g@, degree_sequence@)
                &&& edge_total(g@, true, degree_sequence@.len() as int) == total_out(
                    degree_sequence@,
                )
                &&& !self_loop ==> forall|x: int| #[trigger] multiplicity(g@, x, x) == 0
                &&& !repeated_edges ==> forall|x: int, y: int| #[trigger]
                    multiplicity(g@, x, y) <= 1
            },
            degree_sequence@.len() == 0 ==> holds(result, Map::<(int, int), nat>::empty()),
    {
        let ghost d = degree_sequence@;
        let n = degree_sequence.len();
        let mut i: usize = 0;
        while i < n
            invariant
                n == d.len(),
                d == degree_sequence@,
                i <= n,
                forall|k: int| 0 <= k < i ==> !((#[trigger] d[k]).0 == 0 && d[k].1 > 0),
            decreases n - i,
        {
            if degree_sequence[i].0 == 0 && degree_sequence[i].1 > 0 {
                return Err(NO_OUT_DEGREE);
            }
            i += 1;
        }
        i = 0;
        while i < n
            invariant
                n == d.len(),
                d == degree_sequence@,
                i <= n,
                !lacks_out(d),
                forall|k: int| 0 <= k < i ==> !((#[trigger] d[k]).1 == 0 && d[k].0 > 0),
            decreases n - i,
        {
            if degree_sequence[i].1 == 0 && degree_sequence[i].0 > 0 {
                return Err(NO_IN_DEGREE);
            }
            i += 1;
        }
        if n == 0 {
            assert(initial_quotas(d) =~= Seq::<Quota>::empty());
            assert(pairs_model(Seq::<(usize, usize)>::empty()) =~= Seq::<(int, int)>::empty());
            let g = SwitchGraph::empty(true);
            proof {
                lemma_realized_edge_total(g@, d, 0);
            }
            return Ok(g);
        }
        let mut sum_out: u128 = 0;
        let mut sum_in: u128 = 0;
        let mut quotas: Vec<Quota> = Vec::new();
        i = 0;
        assert(d.take(0) =~= Seq::<(usize, usize)>::empty());
        while i < n
            invariant
                n == d.len(),
                d == degree_sequence@,
                i <= n,
                sum_out == total_out(d.take(i as int)),
                sum_in == total_in(d.take(i as int)),
                sum_out <= i * 0xffff_ffff_ffff_ffff,
                sum_in <= i * 0xffff_ffff_ffff_ffff,
                quotas@ == initial_quotas(d.take(i as int)),
            decreases n - i,
        {
            let (give, take) = degree_sequence[i];
            proof {
                let next = d.take(i + 1);
                assert(next.drop_last() =~= d.take(i as int));
                assert(next.last() == (give, take));
                assert(initial_quotas(next) =~= initial_quotas(d.take(i as int)).push(
                    Quota { give, take, vertex: i },
                ));
            }
            sum_out += give as u128;
            sum_in += take as u128;
            quotas.push(Quota { give, take, vertex: i });
            i += 1;
        }
        assert(d.take(n as int) =~= d);
        if sum_out != sum_in {
            return Err(UNBALANCED);
        }
        sort_quotas(&mut quotas);
        let mut edges: Vec<(usize, usize)> = Vec::new();
        let ghost start = sorted_desc(initial_quotas(d));
        let ghost none: Seq<(usize, usize)> = Seq::empty();
        loop
            invariant
                d == degree_sequence@,
                d.len() > 0,
                !lacks_out(d),
                !lacks_in(d),
                total_out(d) == total_in(d),
                start == sorted_desc(initial_quotas(d)),
                none == Seq::<(usize, usize)>::empty(),
                serve_takers(quotas@, edges@, self_loop, repeated_edges) == serve_takers(
                    start,
                    none,
                    self_loop,
                    repeated_edges,
                ),
            ensures
                serve_takers(start, none, self_loop, repeated_edges) == Some((edges@, quotas@)),
            decreases tally(quotas@, wants()),
        {
            let mut at: usize = 0;
            while at < quotas.len() && quotas[at].take == 0
                invariant
                    at <= quotas.len(),
                    first_taker(quotas@, at as int) == first_taker(quotas@, 0),
                decreases quotas.len() - at,
            {
                at += 1;
            }
            if at >= quotas.len() {
                break ;
            }
            let ghost before = quotas@;
            let ghost made = edges@;
            let sink = quotas[at].vertex;
            let need = quotas[at].take;
            quotas.set(at, Quota { give: quotas[at].give, take: 0, vertex: sink });
            let barred = if self_loop {
                None
            } else {
                Some(sink)
            };
            let (donors, missing) = feed_from(&mut quotas, 0, need, barred, repeated_edges);
            if missing > 0 {
                return Err(NOT_GRAPHICAL);
            }
            let mut k: usize = 0;
            while k < donors.len()
                invariant
                    k <= donors.len(),
                    edges@ == made + toward(donors@, sink).take(k as int),
                decreases donors.len() - k,
            {
                edges.push((donors[k], sink));
                k += 1;
                assert(edges@ =~= made + toward(donors@, sink).take(k as int));
            }
            assert(edges@ =~= made + toward(donors@, sink));
            sort_quotas(&mut quotas);
            proof {
                lemma_round_shrinks(before, self_loop, repeated_edges);
            }
        }
        let g = SwitchGraph::from_pairs(&edges, true);
        proof {
            assert forall|v: int| 0 <= v < d.len() implies #[trigger] out_degree(
                g@,
                v,
                d.len() as int,
            ) == d[v].0 by {
                lemma_directed_realization(d, self_loop, repeated_edges, v as usize);
                lemma_from_edges_degrees(edges@, true, v as usize, d.len() as int);
            }
            assert forall|v: int| 0 <= v < d.len() implies #[trigger] in_degree(
                g@,
                v,
                d.len() as int,
            ) == d[v].1 by {
                lemma_directed_realization(d, self_loop, repeated_edges, v as usize);
                lemma_from_edges_degrees(edges@, true, v as usize, d.len() as int);
            }
            lemma_directed_realization(d, self_loop, repeated_edges, 0);
            lemma_from_edges_degrees(edges@, true, 0, d.len() as int);
            if !repeated_edges {
                lemma_directed_realization_simple(d, self_loop);
                lemma_simple_store(edges@, true, d.len() as int);
            }
            lemma_realized_edge_total(g@, d, d.len() as int);
        }
        Ok(g)
    }
}

} // verus!
