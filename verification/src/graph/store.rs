//! The edge-multiset store: ordered vertex pairs with their multiplicities,
//! mirrored for undirected graphs.

use crate::graph::counts::{
    add_one, from_edges, lemma_with_edge, lemma_without_edge, lists_entries, multiplicity,
    normal_form, spans, take_one, valid_counts, with_edge, without_edge,
};
use crate::graph::edge::Edge;
use std::collections::HashMap;
use vstd::std_specs::hash::spec_hash_map_iter;
use vstd::std_specs::iter::IteratorSpec;
use vstd::prelude::*;

verus! {

broadcast use vstd::std_specs::hash::group_hash_axioms;

/// Keys of the store pack a vertex pair into one integer: the first endpoint
/// times this base plus the second.
pub const PAIR_BASE: u128 = 0x1_0000_0000_0000_0000;

/// The key under which the pair `(u, v)` is stored.
pub open spec fn pair_key(u: int, v: int) -> int {
    u * PAIR_BASE + v
}

/// Whether `x` is a vertex index of this machine.
pub open spec fn is_vertex(x: int) -> bool {
    0 <= x <= usize::MAX
}

fn pack(u: usize, v: usize) -> (k: u128)
    ensures
        k == pair_key(u as int, v as int),
{
    (u as u128) * PAIR_BASE + (v as u128)
}

fn unpack(k: u128) -> (p: (usize, usize))
    requires
        k / PAIR_BASE <= usize::MAX,
        k % PAIR_BASE <= usize::MAX,
    ensures
        pair_key(p.0 as int, p.1 as int) == k,
{
    ((k / PAIR_BASE) as usize, (k % PAIR_BASE) as usize)
}

/// A multigraph held as a map from ordered vertex pairs to multiplicities.
pub struct SwitchGraph {
    directed: bool,
    edges: HashMap<u128, usize>,
}

impl View for SwitchGraph {
    type V = Map<(int, int), nat>;

    closed spec fn view(&self) -> Map<(int, int), nat> {
        Map::new(
            |e: (int, int)|
                is_vertex(e.0) && is_vertex(e.1) && self.edges@.contains_key(
                    pair_key(e.0, e.1) as u128,
                ),
            |e: (int, int)| self.edges@[pair_key(e.0, e.1) as u128] as nat,
        )
    }
}

impl SwitchGraph {
    /// Whether edges have a direction.
    pub closed spec fn directed(&self) -> bool {
        self.directed
    }

    /// Every key packs two vertex indices and no entry counts zero.
    pub closed spec fn wf_entries(&self) -> bool {
        forall|k: u128| #[trigger]
            self.edges@.contains_key(k) ==> k / PAIR_BASE <= usize::MAX && k % PAIR_BASE
                <= usize::MAX && self.edges@[k] >= 1
    }

    /// The store's invariant: sound entries, and both orientations of every
    /// edge of an undirected store.
    pub open spec fn wf(&self) -> bool {
        &&& self.wf_entries()
        &&& valid_counts(self@, self.directed())
    }

    /// Sound entries lie between vertex indices and count no zero.
    pub proof fn lemma_wf_entries(&self)
        requires
            self.wf_entries(),
        ensures
            spans(self@, usize::MAX + 1),
            forall|u: int, v: int| #[trigger] self@.contains_key((u, v)) ==> self@[(u, v)] > 0,
    {
    }

    /// Whether edges have a direction.
    pub fn is_directed(&self) -> (d: bool)
        ensures
            d == self.directed(),
    {
        self.directed
    }

    /// Number of copies of the ordered pair `(u, v)`.
    pub fn multiplicity(&self, u: usize, v: usize) -> (c: usize)
        requires
            self.wf(),
        ensures
            c == multiplicity(self@, u as int, v as int),
    {
        let key = pack(u, v);
        match self.edges.get(&key) {
            Some(count) => *count,
            None => 0,
        }
    }

    /// A store without edges.
    pub fn empty(directed: bool) -> (g: SwitchGraph)
        ensures
            g.wf(),
            g.directed() == directed,
            g@ == Map::<(int, int), nat>::empty(),
    {
        let g = SwitchGraph { directed, edges: HashMap::new() };
        assert(g@ =~= Map::<(int, int), nat>::empty());
        g
    }

    /// Adds one copy of the ordered pair `(u, v)`, and not its mirror.
    pub fn insert_single(&mut self, u: usize, v: usize)
        requires
            old(self).wf_entries(),
            multiplicity(old(self)@, u as int, v as int) < usize::MAX,
        ensures
            final(self).wf_entries(),
            final(self).directed() == old(self).directed(),
            final(self)@ == add_one(old(self)@, u as int, v as int),
    {
        let key = pack(u, v);
        let count = match self.edges.get(&key) {
            Some(count) => *count,
            None => 0,
        };
        self.edges.insert(key, count + 1);
        assert(self@ =~= add_one(old(self)@, u as int, v as int));
    }

    /// Removes one copy of the ordered pair `(u, v)`, and not its mirror; a
    /// pair that is not stored leaves the store unchanged.
    pub fn remove_single(&mut self, u: usize, v: usize)
        requires
            old(self).wf_entries(),
        ensures
            final(self).wf_entries(),
            final(self).directed() == old(self).directed(),
            final(self)@ == take_one(old(self)@, u as int, v as int),
    {
        let key = pack(u, v);
        let count = match self.edges.get(&key) {
            Some(count) => *count,
            None => 0,
        };
        if count > 1 {
            self.edges.insert(key, count - 1);
        } else if count == 1 {
            self.edges.remove(&key);
        }
        assert(self@ =~= take_one(old(self)@, u as int, v as int));
    }

    /// Adds one copy of the edge `u - v`.
    pub fn insert(&mut self, u: usize, v: usize)
        requires
            old(self).wf(),
            multiplicity(old(self)@, u as int, v as int) < usize::MAX,
        ensures
            final(self).wf(),
            final(self).directed() == old(self).directed(),
            final(self)@ == with_edge(old(self)@, old(self).directed(), u as int, v as int),
    {
        proof {
            lemma_with_edge(self@, self.directed(), u as int, v as int);
        }
        self.insert_single(u, v);
        if !self.directed && u != v {
            self.insert_single(v, u);
        }
    }

    /// Removes one copy of the edge `u - v`; an edge that is not stored
    /// leaves the store unchanged.
    pub fn remove(&mut self, u: usize, v: usize)
        requires
            old(self).wf(),
        ensures
            final(self).wf(),
            final(self).directed() == old(self).directed(),
            final(self)@ == without_edge(old(self)@, old(self).directed(), u as int, v as int),
    {
        proof {
            lemma_without_edge(self@, self.directed(), u as int, v as int);
        }
        self.remove_single(u, v);
        if !self.directed && u != v {
            self.remove_single(v, u);
        }
    }

    /// The entries of the store, each pair in the form in which it is drawn
    /// for a switch, in the order in which the map yields them.
    pub fn get_normalized_edges(&self) -> (list: Vec<((usize, usize), usize)>)
        requires
            self.wf(),
        ensures
            exists|pairs: Seq<(int, int)>| lists_entries(self@, self.directed(), list@, pairs),
            self@.dom().finite(),
            list@.len() == self@.dom().len(),
    {
        let mut list: Vec<((usize, usize), usize)> = Vec::new();
        let ghost mut pairs: Seq<(int, int)> = Seq::empty();
        for entry in it: self.edges.iter()
            invariant
                self.wf_entries(),
                it.seq() == spec_hash_map_iter(&self.edges).remaining(),
                it.seq().no_duplicates(),
                list@.len() == it.index(),
                pairs.len() == it.index(),
                forall|i: int|
                    0 <= i < it.index() ==> is_vertex((#[trigger] pairs[i]).0) && is_vertex(
                        pairs[i].1,
                    ) && pair_key(pairs[i].0, pairs[i].1) == *it.seq()[i].0,
                forall|i: int|
                    0 <= i < it.index() ==> {
                        let n = normal_form(pairs[i], self.directed);
                        &&& (#[trigger] list@[i]).0.0 == n.0
                        &&& list@[i].0.1 == n.1
                        &&& list@[i].1 == *it.seq()[i].1
                    },
        {
            let (key, count) = entry;
            assert(self.edges@.contains_key(*key));
            let (u, v) = unpack(*key);
            proof {
                pairs = pairs.push((u as int, v as int));
            }
            if self.directed || u <= v {
                list.push(((u, v), *count));
            } else {
                list.push(((v, u), *count));
            }
        }
        proof {
            let all = spec_hash_map_iter(&self.edges).remaining();
            assert forall|i: int, j: int| 0 <= i < j < pairs.len() implies pairs[i] != pairs[j] by {
                assert(self.edges@[*all[i].0] == *all[i].1);
                assert(self.edges@[*all[j].0] == *all[j].1);
                assert(all[i] != all[j]);
            }
            assert forall|e: (int, int)| self@.contains_key(e) implies pairs.contains(e) by {
                let k = pair_key(e.0, e.1) as u128;
                assert(all.contains((&k, &self.edges@[k])));
                let i = choose|i: int| 0 <= i < all.len() && all[i] == (&k, &self.edges@[k]);
                assert(pairs[i] == e);
            }
            assert forall|e: (int, int)| pairs.contains(e) implies self@.contains_key(e) by {
                let i = choose|i: int| 0 <= i < pairs.len() && pairs[i] == e;
                assert(self.edges@.contains_key(*all[i].0));
            }
            assert(lists_entries(self@, self.directed(), list@, pairs));
            assert(self@.dom() =~= pairs.to_set());
            vstd::seq_lib::seq_to_set_is_finite(pairs);
            pairs.unique_seq_to_set();
        }
        list
    }

    /// Every edge of the store, each ordered pair as often as its
    /// multiplicity says; an undirected edge between two vertices comes in
    /// both orientations. The order is that in which the map yields its
    /// entries.
    pub fn iter_edges(&self) -> (list: Vec<(usize, usize)>)
        requires
            self.wf(),
        ensures
            forall|u: usize, v: usize|
                list@.to_multiset().count((u, v)) == multiplicity(self@, u as int, v as int),
    {
        let mut list: Vec<(usize, usize)> = Vec::new();
        let ghost mut seen: Set<u128> = Set::empty();
        assert(list@.to_multiset() =~= vstd::multiset::Multiset::empty()) by {
            list@.to_multiset_ensures();
        }
        for entry in it: self.edges.iter()
            invariant
                self.wf_entries(),
                it.seq() == spec_hash_map_iter(&self.edges).remaining(),
                it.seq().no_duplicates(),
                forall|j: int| 0 <= j < it.index() ==> seen.contains(*(#[trigger] it.seq()[j]).0),
                forall|k: u128|
                    seen.contains(k) ==> exists|j: int|
                        0 <= j < it.index() && *(#[trigger] it.seq()[j]).0 == k,
                forall|u: usize, v: usize|
                    list@.to_multiset().count((u, v)) == (if seen.contains(
                        pair_key(u as int, v as int) as u128,
                    ) {
                        self.edges@[pair_key(u as int, v as int) as u128] as nat
                    } else {
                        0
                    }),
        {
            let (key, count) = entry;
            assert(self.edges@.contains_key(*key) && self.edges@[*key] == *count);
            let (u, v) = unpack(*key);
            let ghost before = list@.to_multiset();
            proof {
                if seen.contains(*key) {
                    let j = choose|j: int| 0 <= j < it.index() && *(#[trigger] it.seq()[j]).0 == *key;
                    assert(self.edges@[*it.seq()[j].0] == *it.seq()[j].1);
                    assert(it.seq()[j] == it.seq()[it.index()]);
                }
            }
            let mut copies: usize = 0;
            while copies < *count
                invariant
                    copies <= *count,
                    forall|e: (usize, usize)|
                        list@.to_multiset().count(e) == before.count(e) + (if e == (u, v) {
                            copies as nat
                        } else {
                            0
                        }),
                decreases *count - copies,
            {
                let ghost shorter = list@;
                list.push((u, v));
                assert(list@.to_multiset() =~= shorter.to_multiset().insert((u, v))) by {
                    vstd::seq_lib::to_multiset_build(shorter, (u, v));
                }
                copies += 1;
            }
            proof {
                seen = seen.insert(*key);
            }
        }
        proof {
            let all = spec_hash_map_iter(&self.edges).remaining();
            assert forall|u: usize, v: usize|
                list@.to_multiset().count((u, v)) == multiplicity(self@, u as int, v as int) by {
                let k = pair_key(u as int, v as int) as u128;
                if self.edges@.contains_key(k) {
                    assert(all.contains((&k, &self.edges@[k])));
                    let j = choose|j: int| 0 <= j < all.len() && all[j] == (&k, &self.edges@[k]);
                    assert(seen.contains(*all[j].0));
                } else if seen.contains(k) {
                    let j = choose|j: int| 0 <= j < all.len() && *(#[trigger] all[j]).0 == k;
                    assert(self.edges@.contains_key(*all[j].0));
                }
            }
        }
        list
    }

    /// The store that holds the given pairs as edges.
    pub fn from_pairs(pairs: &Vec<(usize, usize)>, directed: bool) -> (g: SwitchGraph)
        ensures
            g.wf(),
            g.directed() == directed,
            g@ == from_edges(pairs_model(pairs@), directed),
    {
        let mut g = SwitchGraph::empty(directed);
        let mut i: usize = 0;
        assert(pairs_model(pairs@).take(0) =~= Seq::<(int, int)>::empty());
        while i < pairs.len()
            invariant
                i <= pairs.len(),
                g.wf(),
                g.directed() == directed,
                g@ == from_edges(pairs_model(pairs@).take(i as int), directed),
                forall|a: int, b: int| #[trigger] multiplicity(g@, a, b) <= i,
            decreases pairs.len() - i,
        {
            let (u, v) = pairs[i];
            proof {
                lemma_with_edge(g@, directed, u as int, v as int);
                let next = pairs_model(pairs@).take(i + 1);
                assert(next.drop_last() =~= pairs_model(pairs@).take(i as int));
                assert(next.last() == (u as int, v as int));
            }
            assert(multiplicity(g@, u as int, v as int) <= i);
            g.insert(u, v);
            i += 1;
        }
        assert(pairs_model(pairs@).take(i as int) =~= pairs_model(pairs@));
        g
    }

    /// The store that holds the given edges, their weights dropped.
    pub fn new(edges: Vec<Edge>, directed: bool) -> (g: SwitchGraph)
        ensures
            g.wf(),
            g.directed() == directed,
            g@ == from_edges(endpoints_model(edges@), directed),
    {
        let mut pairs: Vec<(usize, usize)> = Vec::new();
        let mut i: usize = 0;
        while i < edges.len()
            invariant
                i <= edges.len(),
                pairs@.len() == i,
                forall|k: int|
                    0 <= k < i ==> #[trigger] pairs@[k] == (edges@[k].source(), edges@[k].target()),
            decreases edges.len() - i,
        {
            pairs.push(edges[i].endpoints());
            i += 1;
        }
        assert(pairs_model(pairs@) =~= endpoints_model(edges@));
        SwitchGraph::from_pairs(&pairs, directed)
    }
}

/// The construction failed with `message`.
pub open spec fn fails_with(result: Result<SwitchGraph, &'static str>, message: &str) -> bool {
    result matches Err(given) && given@ == message@
}

/// The construction gave a store with the edges `m`.
pub open spec fn holds(result: Result<SwitchGraph, &'static str>, m: Map<(int, int), nat>) -> bool {
    result matches Ok(g) && g@ == m
}

/// Vertex pairs as the model's edges.
pub open spec fn pairs_model(pairs: Seq<(usize, usize)>) -> Seq<(int, int)> {
    Seq::new(pairs.len(), |i: int| (pairs[i].0 as int, pairs[i].1 as int))
}

/// The endpoints of edges as the model's edges.
pub open spec fn endpoints_model(edges: Seq<Edge>) -> Seq<(int, int)> {
    Seq::new(edges.len(), |i: int| (edges[i].source() as int, edges[i].target() as int))
}

} // verus!
