//! The switching operator: one degree-preserving exchange of the endpoints of
//! two edges, under a policy on self-loops and repeated edges.

use crate::graph::counts::{
    below, degree, edge_total, in_degree, lemma_edge_spans, lemma_same_degrees_same_total,
    lemma_with_edge, lemma_with_edge_degrees, lemma_without_edge, lemma_without_edge_degrees,
    lists_entries, multiplicity, normal_form, out_degree, same_degrees, spans, valid_counts,
    with_edge, without_edge,
};
use crate::graph::sampling::draw_weighted;
use crate::graph::store::SwitchGraph;
use vstd::prelude::*;

verus! {

/// An edge that a switch can draw: a stored pair, smaller endpoint first in
/// an undirected store.
pub open spec fn drawable(m: Map<(int, int), nat>, directed: bool, e: (int, int)) -> bool {
    m.contains_key(e) && (directed || e.0 <= e.1)
}

/// Whether the two drawn edges pass the policy. With self-loops disallowed
/// the edges may share neither their first nor their second endpoint; with
/// self-loops allowed they may share no endpoint at all. With repeated edges
/// disallowed neither cross edge may be stored already.
pub open spec fn switch_admitted(
    m: Map<(int, int), nat>,
    e1: (int, int),
    e2: (int, int),
    self_loop: bool,
    repeated_edges: bool,
) -> bool {
    &&& e1.0 != e2.0
    &&& e1.1 != e2.1
    &&& self_loop ==> e1.0 != e2.1 && e1.1 != e2.0
    &&& !repeated_edges ==> !m.contains_key((e1.0, e2.1)) && !m.contains_key((e2.0, e1.1))
}

/// The store after the switch of `e1` and `e2`: each edge gives its second
/// endpoint to the other.
pub open spec fn switched(
    m: Map<(int, int), nat>,
    directed: bool,
    e1: (int, int),
    e2: (int, int),
) -> Map<(int, int), nat> {
    with_edge(
        without_edge(
            with_edge(without_edge(m, directed, e1.0, e1.1), directed, e1.0, e2.1),
            directed,
            e2.0,
            e2.1,
        ),
        directed,
        e2.0,
        e1.1,
    )
}

/// No edge that can be drawn ends where one begins, itself or another. In
/// such a store no switch makes a self-loop.
pub open spec fn chain_free(m: Map<(int, int), nat>, directed: bool) -> bool {
    forall|e1: (int, int), e2: (int, int)|
        #[trigger] drawable(m, directed, e1) && #[trigger] drawable(m, directed, e2) ==> e1.0
            != e2.1
}

/// The store holds a self-loop at one vertex at most.
pub open spec fn one_loop_at_most(m: Map<(int, int), nat>) -> bool {
    forall|x: int, y: int|
        #[trigger] m.contains_key((x, x)) && #[trigger] m.contains_key((y, y)) ==> x == y
}

/// No multiplicity of `after` is above that of `before`, or it is one.
pub open spec fn none_repeated(before: Map<(int, int), nat>, after: Map<(int, int), nat>) -> bool {
    forall|u: int, v: int|
        #![trigger multiplicity(after, u, v)]
        multiplicity(after, u, v) <= multiplicity(before, u, v) || multiplicity(after, u, v) == 1
}

/// `after` has no self-loop that `before` had not.
pub open spec fn no_new_loop(before: Map<(int, int), nat>, after: Map<(int, int), nat>) -> bool {
    forall|x: int|
        #![trigger multiplicity(after, x, x)]
        multiplicity(after, x, x) <= multiplicity(before, x, x)
}

/// A store that holds one edge, once.
pub open spec fn single_edge(m: Map<(int, int), nat>, directed: bool, e: (int, int)) -> bool {
    &&& multiplicity(m, e.0, e.1) == 1
    &&& forall|u: int, v: int| #[trigger]
        m.contains_key((u, v)) ==> (u, v) == e || (!directed && (u, v) == (e.1, e.0))
}

/// What a switch does to the degrees of one vertex: nothing.
proof fn lemma_switch_at(
    m: Map<(int, int), nat>,
    directed: bool,
    e1: (int, int),
    e2: (int, int),
    self_loop: bool,
    repeated_edges: bool,
    a: int,
    n: int,
)
    requires
        valid_counts(m, directed),
        spans(m, n),
        drawable(m, directed, e1),
        drawable(m, directed, e2),
        switch_admitted(m, e1, e2, self_loop, repeated_edges),
    ensures
        valid_counts(switched(m, directed, e1, e2), directed),
        spans(switched(m, directed, e1, e2), n),
        directed ==> out_degree(switched(m, directed, e1, e2), a, n) == out_degree(m, a, n),
        directed ==> in_degree(switched(m, directed, e1, e2), a, n) == in_degree(m, a, n),
        !directed ==> degree(switched(m, directed, e1, e2), a, n) == degree(m, a, n),
{
    let m1 = without_edge(m, directed, e1.0, e1.1);
    let m2 = with_edge(m1, directed, e1.0, e2.1);
    let m3 = without_edge(m2, directed, e2.0, e2.1);
    lemma_without_edge(m, directed, e1.0, e1.1);
    lemma_edge_spans(m, directed, e1.0, e1.1, n);
    lemma_with_edge(m1, directed, e1.0, e2.1);
    lemma_edge_spans(m1, directed, e1.0, e2.1, n);
    lemma_without_edge(m2, directed, e2.0, e2.1);
    lemma_edge_spans(m2, directed, e2.0, e2.1, n);
    lemma_with_edge(m3, directed, e2.0, e1.1);
    lemma_edge_spans(m3, directed, e2.0, e1.1, n);
    assert(multiplicity(m, e1.0, e1.1) > 0);
    assert(multiplicity(m, e2.0, e2.1) > 0);
    assert(multiplicity(m2, e2.0, e2.1) > 0);
    lemma_without_edge_degrees(m, directed, e1.0, e1.1, a, n);
    lemma_with_edge_degrees(m1, directed, e1.0, e2.1, a, n);
    lemma_without_edge_degrees(m2, directed, e2.0, e2.1, a, n);
    lemma_with_edge_degrees(m3, directed, e2.0, e1.1, a, n);
}

/// A switch of two drawn edges that the policy admits leaves every degree,
/// and so the number of edges, as it was.
pub proof fn lemma_switch_keeps_degrees(
    m: Map<(int, int), nat>,
    directed: bool,
    e1: (int, int),
    e2: (int, int),
    self_loop: bool,
    repeated_edges: bool,
    n: int,
)
    requires
        valid_counts(m, directed),
        spans(m, n),
        drawable(m, directed, e1),
        drawable(m, directed, e2),
        switch_admitted(m, e1, e2, self_loop, repeated_edges),
    ensures
        valid_counts(switched(m, directed, e1, e2), directed),
        spans(switched(m, directed, e1, e2), n),
        same_degrees(m, switched(m, directed, e1, e2), directed, n),
        edge_total(switched(m, directed, e1, e2), directed, n) == edge_total(m, directed, n),
{
    let after = switched(m, directed, e1, e2);
    lemma_switch_at(m, directed, e1, e2, self_loop, repeated_edges, 0, n);
    assert forall|a: int| directed implies #[trigger] out_degree(m, a, n) == out_degree(
        after,
        a,
        n,
    ) by {
        lemma_switch_at(m, directed, e1, e2, self_loop, repeated_edges, a, n);
    }
    assert forall|a: int| directed implies #[trigger] in_degree(m, a, n) == in_degree(
        after,
        a,
        n,
    ) by {
        lemma_switch_at(m, directed, e1, e2, self_loop, repeated_edges, a, n);
    }
    assert forall|a: int| !directed implies #[trigger] degree(m, a, n) == degree(after, a, n) by {
        lemma_switch_at(m, directed, e1, e2, self_loop, repeated_edges, a, n);
    }
    lemma_same_degrees_same_total(m, after, directed, n, n);
}

/// A switch under the policy that allows no repeated edges raises no
/// multiplicity above one. Left out: the switch of two self-loops of an
/// undirected store, whose two cross edges are one and the same edge.
pub proof fn lemma_switch_no_repeat(
    m: Map<(int, int), nat>,
    directed: bool,
    e1: (int, int),
    e2: (int, int),
    self_loop: bool,
)
    requires
        valid_counts(m, directed),
        drawable(m, directed, e1),
        drawable(m, directed, e2),
        switch_admitted(m, e1, e2, self_loop, false),
        directed || e1.0 != e1.1 || e2.0 != e2.1,
    ensures
        none_repeated(m, switched(m, directed, e1, e2)),
{
    let m1 = without_edge(m, directed, e1.0, e1.1);
    let m2 = with_edge(m1, directed, e1.0, e2.1);
    let m3 = without_edge(m2, directed, e2.0, e2.1);
    lemma_without_edge(m, directed, e1.0, e1.1);
    lemma_with_edge(m1, directed, e1.0, e2.1);
    lemma_without_edge(m2, directed, e2.0, e2.1);
    lemma_with_edge(m3, directed, e2.0, e1.1);
    assert(multiplicity(m, e1.0, e2.1) == 0);
    assert(multiplicity(m, e2.0, e1.1) == 0);
    assert(directed || multiplicity(m, e2.1, e1.0) == multiplicity(m, e1.0, e2.1));
    assert(directed || multiplicity(m, e1.1, e2.0) == multiplicity(m, e2.0, e1.1));
}

/// A switch makes no self-loop when neither cross edge is one. Left out: two
/// drawn edges of which one ends where the other begins. With self-loops
/// disallowed the policy admits them, and their switch makes a self-loop.
pub proof fn lemma_switch_no_new_loop(
    m: Map<(int, int), nat>,
    directed: bool,
    e1: (int, int),
    e2: (int, int),
    self_loop: bool,
    repeated_edges: bool,
)
    requires
        valid_counts(m, directed),
        drawable(m, directed, e1),
        drawable(m, directed, e2),
        switch_admitted(m, e1, e2, self_loop, repeated_edges),
        e1.0 != e2.1,
        e2.0 != e1.1,
    ensures
        no_new_loop(m, switched(m, directed, e1, e2)),
{
    let m1 = without_edge(m, directed, e1.0, e1.1);
    let m2 = with_edge(m1, directed, e1.0, e2.1);
    let m3 = without_edge(m2, directed, e2.0, e2.1);
    lemma_without_edge(m, directed, e1.0, e1.1);
    lemma_with_edge(m1, directed, e1.0, e2.1);
    lemma_without_edge(m2, directed, e2.0, e2.1);
    lemma_with_edge(m3, directed, e2.0, e1.1);
}

/// In a store that holds one edge once, no two draws pass the policy.
pub proof fn lemma_single_edge_no_switch(
    m: Map<(int, int), nat>,
    directed: bool,
    e: (int, int),
    e1: (int, int),
    e2: (int, int),
    self_loop: bool,
    repeated_edges: bool,
)
    requires
        single_edge(m, directed, e),
        drawable(m, directed, e1),
        drawable(m, directed, e2),
    ensures
        !switch_admitted(m, e1, e2, self_loop, repeated_edges),
{
}

impl SwitchGraph {
    /// Switches the two given edges if the policy admits them: `e1` and `e2`
    /// each give their second endpoint to the other.
    pub fn switch_edges(
        &mut self,
        e1: (usize, usize),
        e2: (usize, usize),
        self_loop: bool,
        repeated_edges: bool,
    ) -> (done: bool)
        requires
            old(self).wf(),
            multiplicity(old(self)@, e1.0 as int, e2.1 as int) < usize::MAX - 1,
            multiplicity(old(self)@, e2.0 as int, e1.1 as int) < usize::MAX - 1,
        ensures
            final(self).wf(),
            final(self).directed() == old(self).directed(),
            done == switch_admitted(
                old(self)@,
                (e1.0 as int, e1.1 as int),
                (e2.0 as int, e2.1 as int),
                self_loop,
                repeated_edges,
            ),
            done ==> final(self)@ == switched(
                old(self)@,
                old(self).directed(),
                (e1.0 as int, e1.1 as int),
                (e2.0 as int, e2.1 as int),
            ),
            !done ==> final(self)@ == old(self)@,
    {
        let (x1, y1) = e1;
        let (x2, y2) = e2;
        if x1 == x2 || y1 == y2 {
            return false;
        }
        if self_loop && (x1 == y2 || y1 == x2) {
            return false;
        }
        if !repeated_edges && (self.multiplicity(x1, y2) > 0 || self.multiplicity(x2, y1) > 0) {
            return false;
        }
        proof {
            let m1 = without_edge(self@, self.directed(), x1 as int, y1 as int);
            let m2 = with_edge(m1, self.directed(), x1 as int, y2 as int);
            let m3 = without_edge(m2, self.directed(), x2 as int, y2 as int);
            lemma_without_edge(self@, self.directed(), x1 as int, y1 as int);
            lemma_with_edge(m1, self.directed(), x1 as int, y2 as int);
            lemma_without_edge(m2, self.directed(), x2 as int, y2 as int);
        }
        self.remove(x1, y1);
        self.insert(x1, y2);
        self.remove(x2, y2);
        self.insert(x2, y1);
        true
    }

    /// One step of the switching chain: draws two entries, each with a chance
    /// proportional to its multiplicity, and switches them if the policy admits
    /// them. Returns whether the store was changed; the draws decide.
    pub fn switch(&mut self, self_loop: bool, repeated_edges: bool) -> (done: bool)
        requires
            old(self).wf(),
            below(old(self)@, usize::MAX - 1),
        ensures
            final(self).wf(),
            final(self).directed() == old(self).directed(),
            !done ==> final(self)@ == old(self)@,
            old(self)@.dom().len() < 2 ==> !done,
            (forall|e1: (int, int), e2: (int, int)|
                #[trigger] drawable(old(self)@, old(self).directed(), e1) && #[trigger] drawable(
                    old(self)@,
                    old(self).directed(),
                    e2,
                ) ==> !switch_admitted(old(self)@, e1, e2, self_loop, repeated_edges)) ==> !done,
            done ==> exists|e1: (int, int), e2: (int, int)|
                {
                    &&& drawable(old(self)@, old(self).directed(), e1)
                    &&& drawable(old(self)@, old(self).directed(), e2)
                    &&& switch_admitted(old(self)@, e1, e2, self_loop, repeated_edges)
                    &&& final(self)@ == #[trigger] switched(
                        old(self)@,
                        old(self).directed(),
                        e1,
                        e2,
                    )
                },
            done ==> forall|n: int| #[trigger]
                spans(old(self)@, n) ==> {
                    &&& spans(final(self)@, n)
                    &&& same_degrees(old(self)@, final(self)@, old(self).directed(), n)
                    &&& edge_total(final(self)@, old(self).directed(), n) == edge_total(
                        old(self)@,
                        old(self).directed(),
                        n,
                    )
                },
            done && !repeated_edges && (old(self).directed() || one_loop_at_most(old(self)@))
                ==> none_repeated(old(self)@, final(self)@),
            done && (self_loop || chain_free(old(self)@, old(self).directed())) ==> no_new_loop(
                old(self)@,
                final(self)@,
            ),
            (exists|e: (int, int)| single_edge(old(self)@, old(self).directed(), e)) ==> !done,
    {
        let normalized = self.get_normalized_edges();
        if normalized.len() < 2 {
            return false;
        }
        // Two entries, none of multiplicity zero, weigh at least two: the
        // draws have something to choose from.
        let weights = entry_weights(&normalized);
        let first = draw_weighted(&weights);
        let second = draw_weighted(&weights);
        let ghost before = self@;
        let ghost d1 = edge_at(normalized@, picked(first));
        let ghost d2 = edge_at(normalized@, picked(second));
        proof {
            self.lemma_wf_entries();
            let pairs = choose|pairs: Seq<(int, int)>|
                lists_entries(self@, self.directed(), normalized@, pairs);
            let stored1 = pairs[picked(first)];
            let stored2 = pairs[picked(second)];
            assert(pairs.contains(stored1) && pairs.contains(stored2));
            assert(d1 == normal_form(stored1, self.directed()));
            assert(d2 == normal_form(stored2, self.directed()));
            assert(multiplicity(before, stored1.0, stored1.1) == multiplicity(
                before,
                stored1.1,
                stored1.0,
            ) || self.directed());
            assert(multiplicity(before, stored2.0, stored2.1) == multiplicity(
                before,
                stored2.1,
                stored2.0,
            ) || self.directed());
            assert(drawable(before, self.directed(), d1));
            assert(drawable(before, self.directed(), d2));
            if exists|e: (int, int)| single_edge(before, self.directed(), e) {
                let e = choose|e: (int, int)| single_edge(before, self.directed(), e);
                lemma_single_edge_no_switch(
                    before,
                    self.directed(),
                    e,
                    d1,
                    d2,
                    self_loop,
                    repeated_edges,
                );
            }
        }
        let done = self.switch_drawn(&normalized, first, second, self_loop, repeated_edges);
        proof {
            if done {
                assert(self@ == switched(before, self.directed(), d1, d2));
                assert forall|n: int| #[trigger] spans(before, n) implies {
                    &&& spans(self@, n)
                    &&& same_degrees(before, self@, self.directed(), n)
                    &&& edge_total(self@, self.directed(), n) == edge_total(
                        before,
                        self.directed(),
                        n,
                    )
                } by {
                    lemma_switch_keeps_degrees(
                        before,
                        self.directed(),
                        d1,
                        d2,
                        self_loop,
                        repeated_edges,
                        n,
                    );
                }
                if !repeated_edges && (self.directed() || one_loop_at_most(before)) {
                    lemma_switch_no_repeat(before, self.directed(), d1, d2, self_loop);
                }
                if self_loop || chain_free(before, self.directed()) {
                    lemma_switch_no_new_loop(
                        before,
                        self.directed(),
                        d1,
                        d2,
                        self_loop,
                        repeated_edges,
                    );
                }
            }
        }
        done
    }

    /// The step of the switching chain once the draws are made: `normalized`
    /// is the normalized edge view, `first` and `second` are the two draws,
    /// each the index of an entry, or nothing where the generator gave none,
    /// which stands for the first entry. With fewer than two entries nothing
    /// is switched; else the two entries are switched if the policy admits
    /// them.
    pub fn switch_drawn(
        &mut self,
        normalized: &Vec<((usize, usize), usize)>,
        first: Option<usize>,
        second: Option<usize>,
        self_loop: bool,
        repeated_edges: bool,
    ) -> (done: bool)
        requires
            old(self).wf(),
            below(old(self)@, usize::MAX - 1),
            first matches Some(i) ==> i < normalized@.len(),
            second matches Some(i) ==> i < normalized@.len(),
        ensures
            final(self).wf(),
            final(self).directed() == old(self).directed(),
            done == (normalized@.len() >= 2 && switch_admitted(
                old(self)@,
                edge_at(normalized@, picked(first)),
                edge_at(normalized@, picked(second)),
                self_loop,
                repeated_edges,
            )),
            done ==> final(self)@ == switched(
                old(self)@,
                old(self).directed(),
                edge_at(normalized@, picked(first)),
                edge_at(normalized@, picked(second)),
            ),
            !done ==> final(self)@ == old(self)@,
    {
        if normalized.len() < 2 {
            return false;
        }
        let i = match first {
            Some(index) => index,
            None => 0,
        };
        let j = match second {
            Some(index) => index,
            None => 0,
        };
        let e1 = normalized[i].0;
        let e2 = normalized[j].0;
        assert(multiplicity(self@, e1.0 as int, e2.1 as int) < usize::MAX - 1);
        assert(multiplicity(self@, e2.0 as int, e1.1 as int) < usize::MAX - 1);
        self.switch_edges(e1, e2, self_loop, repeated_edges)
    }
}

/// The index that a draw stands for: the first where the generator gave
/// none.
pub open spec fn picked(draw: Option<usize>) -> int {
    match draw {
        Some(index) => index as int,
        None => 0,
    }
}

/// The edge of the entry `i` of a normalized edge view.
pub open spec fn edge_at(list: Seq<((usize, usize), usize)>, i: int) -> (int, int) {
    (list[i].0.0 as int, list[i].0.1 as int)
}

/// The multiplicities of the entries of a normalized edge view, in their
/// order: the weights with which the entries are drawn.
pub fn entry_weights(list: &Vec<((usize, usize), usize)>) -> (weights: Vec<usize>)
    ensures
        weights@.len() == list@.len(),
        forall|i: int| 0 <= i < list@.len() ==> #[trigger] weights@[i] == list@[i].1,
{
    let mut weights: Vec<usize> = Vec::new();
    let mut i: usize = 0;
    while i < list.len()
        invariant
            i <= list.len(),
            weights@.len() == i,
            forall|k: int| 0 <= k < i ==> #[trigger] weights@[k] == list@[k].1,
        decreases list.len() - i,
    {
        weights.push(list[i].1);
        i += 1;
    }
    weights
}

} // verus!
