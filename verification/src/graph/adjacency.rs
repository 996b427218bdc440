//! An adjacency-list graph for edges that are added one by one.

use crate::graph::edge::Edge;
use crate::graph::sampling::{shuffle, toss};
use std::collections::HashMap;
use vstd::prelude::*;
use vstd::std_specs::hash::spec_hash_map_iter;
use vstd::std_specs::iter::IteratorSpec;

verus! {

broadcast use vstd::std_specs::hash::group_hash_axioms;

/// A graph as a map from each vertex to the edges that leave it. An
/// undirected graph holds an edge between two vertices at both of them.
pub struct Graph {
    directed: bool,
    edges: HashMap<usize, Vec<Edge>>,
}

/// The edges that leave `u`; none for a vertex that the graph does not hold.
pub open spec fn row(m: Map<usize, Seq<Edge>>, u: usize) -> Seq<Edge> {
    if m.contains_key(u) {
        m[u]
    } else {
        Seq::empty()
    }
}

/// Whether the edge is listed: in a directed graph each, in an undirected
/// one that orientation which does not go to a smaller vertex.
pub open spec fn listed(e: Edge, directed: bool) -> bool {
    directed || e.target() >= e.source()
}

/// The listed edges of the vertices `keys`, vertex by vertex.
pub open spec fn gathered(m: Map<usize, Seq<Edge>>, directed: bool, keys: Seq<usize>) -> Seq<Edge>
    decreases keys.len(),
{
    if keys.len() == 0 {
        Seq::empty()
    } else {
        gathered(m, directed, keys.drop_last()) + row(m, keys.last()).filter(
            |e: Edge| listed(e, directed),
        )
    }
}

/// `keys` names each vertex of `m` once.
pub open spec fn enumerates(m: Map<usize, Seq<Edge>>, keys: Seq<usize>) -> bool {
    &&& keys.no_duplicates()
    &&& forall|k: usize| m.contains_key(k) <==> keys.contains(k)
}

impl View for Graph {
    type V = Map<usize, Seq<Edge>>;

    closed spec fn view(&self) -> Map<usize, Seq<Edge>> {
        Map::new(|k: usize| self.edges@.contains_key(k), |k: usize| self.edges@[k]@)
    }
}

impl Graph {
    /// Whether edges have a direction.
    pub closed spec fn directed(&self) -> bool {
        self.directed
    }

    /// A graph on the vertices `1..=point_count` without edges.
    pub fn new(point_count: usize, directed: bool) -> (g: Graph)
        ensures
            g.directed() == directed,
            g@ == Map::new(
                |k: usize| 1 <= k <= point_count,
                |k: usize| Seq::<Edge>::empty(),
            ),
    {
        let mut graph = Graph { directed, edges: HashMap::new() };
        let mut point: usize = 0;
        while point < point_count
            invariant
                point <= point_count,
                graph.directed == directed,
                forall|k: usize| graph.edges@.contains_key(k) <==> 1 <= k <= point,
                forall|k: usize| graph.edges@.contains_key(k) ==> graph.edges@[k]@.len() == 0,
            decreases point_count - point,
        {
            point += 1;
            graph.edges.insert(point, Vec::new());
        }
        assert(graph@ =~~= Map::new(
            |k: usize| 1 <= k <= point_count,
            |k: usize| Seq::<Edge>::empty(),
        ));
        graph
    }

    pub fn is_directed(&self) -> (d: bool)
        ensures
            d == self.directed(),
    {
        self.directed
    }

    /// Number of vertices that the graph holds.
    pub fn point_count(&self) -> (count: usize)
        ensures
            count == self@.dom().len(),
    {
        assert(self@.dom() =~= self.edges@.dom());
        self.edges.len()
    }

    /// The listed edges, vertex by vertex, in the order in which the map
    /// yields the vertices.
    pub fn iter_edges(&self) -> (list: Vec<Edge>)
        ensures
            exists|keys: Seq<usize>|
                enumerates(self@, keys) && list@ == #[trigger] gathered(
                    self@,
                    self.directed(),
                    keys,
                ),
    {
        let mut list: Vec<Edge> = Vec::new();
        let ghost mut keys: Seq<usize> = Seq::empty();
        for entry in it: self.edges.iter()
            invariant
                it.seq() == spec_hash_map_iter(&self.edges).remaining(),
                it.seq().no_duplicates(),
                keys.len() == it.index(),
                forall|i: int| 0 <= i < it.index() ==> #[trigger] keys[i] == *it.seq()[i].0,
                list@ == gathered(self@, self.directed, keys),
        {
            let (key, row) = entry;
            assert(self.edges@.contains_key(*key) && self.edges@[*key] == *row);
            let ghost base = list@;
            let mut j: usize = 0;
            assert(row@.take(0) =~= Seq::<Edge>::empty());
            while j < row.len()
                invariant
                    j <= row.len(),
                    list@ == base + row@.take(j as int).filter(
                        |e: Edge| listed(e, self.directed),
                    ),
                decreases row.len() - j,
            {
                let edge = row[j];
                let (u, v) = edge.endpoints();
                proof {
                    let next = row@.take(j + 1);
                    assert(next.drop_last() =~= row@.take(j as int));
                    assert(next.last() == edge);
                    reveal(Seq::filter);
                }
                if v >= u || self.directed {
                    list.push(edge);
                }
                j += 1;
            }
            assert(row@.take(j as int) =~= row@);
            proof {
                let more = keys.push(*key);
                assert(more.drop_last() =~= keys);
                keys = more;
            }
        }
        proof {
            let all = spec_hash_map_iter(&self.edges).remaining();
            assert forall|i: int, j: int| 0 <= i < j < keys.len() implies keys[i] != keys[j] by {
                assert(self.edges@[*all[i].0] == *all[i].1);
                assert(self.edges@[*all[j].0] == *all[j].1);
                assert(all[i] != all[j]);
            }
            assert forall|k: usize| self@.contains_key(k) implies keys.contains(k) by {
                assert(all.contains((&k, &self.edges@[k])));
                let i = choose|i: int| 0 <= i < all.len() && all[i] == (&k, &self.edges@[k]);
                assert(keys[i] == k);
            }
            assert forall|k: usize| keys.contains(k) implies self@.contains_key(k) by {
                let i = choose|i: int| 0 <= i < keys.len() && keys[i] == k;
                assert(self.edges@.contains_key(*all[i].0));
            }
            assert(enumerates(self@, keys));
            assert(list@ == gathered(self@, self.directed(), keys));
        }
        list
    }

    /// Number of listed edges.
    pub fn edge_count(&self) -> (count: usize)
        ensures
            exists|keys: Seq<usize>|
                enumerates(self@, keys) && count == (#[trigger] gathered(
                    self@,
                    self.directed(),
                    keys,
                )).len(),
    {
        self.iter_edges().len()
    }

    /// Adds the edge from `u` to `v` to those that leave `u`.
    pub fn add_single_edge(&mut self, u: usize, v: usize, w: Option<i64>)
        ensures
            final(self).directed() == old(self).directed(),
            final(self)@ == old(self)@.insert(u, row(old(self)@, u).push(Edge::of(u, v, w))),
    {
        let mut list = match self.edges.remove(&u) {
            Some(list) => list,
            None => Vec::new(),
        };
        list.push(Edge::new(u, v, w));
        self.edges.insert(u, list);
        assert(self@ =~= old(self)@.insert(u, row(old(self)@, u).push(Edge::of(u, v, w))));
    }

    /// Adds the edge between `u` and `v`: in a directed graph from `u` to
    /// `v`, in an undirected one also from `v` to `u` unless it is a
    /// self-loop.
    pub fn add_edge(&mut self, u: usize, v: usize, w: Option<i64>)
        ensures
            final(self).directed() == old(self).directed(),
            final(self)@ == with_edge_between(old(self)@, old(self).directed(), u, v, w),
    {
        self.add_single_edge(u, v, w);
        if !self.directed && u != v {
            self.add_single_edge(v, u, w);
        }
    }
}

/// The adjacency lists after the edge between `u` and `v` was added.
pub open spec fn with_edge_between(
    m: Map<usize, Seq<Edge>>,
    directed: bool,
    u: usize,
    v: usize,
    w: Option<i64>,
) -> Map<usize, Seq<Edge>> {
    let forth = m.insert(u, row(m, u).push(Edge::of(u, v, w)));
    if directed || u == v {
        forth
    } else {
        forth.insert(v, row(forth, v).push(Edge::of(v, u, w)))
    }
}

/// The points `1..=n` in their order.
pub open spec fn points(n: nat) -> Seq<usize> {
    Seq::new(n, |i: int| (i + 1) as usize)
}

/// Whether both endpoints of the edge are points of `1..=n`.
pub open spec fn in_range(e: Edge, n: nat) -> bool {
    1 <= e.source() <= n && 1 <= e.target() <= n
}

/// The edge with point `p` renamed to `names[p - 1]`.
pub open spec fn renamed(e: Edge, names: Seq<usize>) -> Edge {
    Edge::of(names[e.source() - 1], names[e.target() - 1], e.weight())
}

/// The edges of `plain`, each renamed.
pub open spec fn all_renamed(plain: Seq<Edge>, names: Seq<usize>) -> Seq<Edge> {
    Seq::new(plain.len(), |i: int| renamed(plain[i], names))
}

/// The edge turned round.
pub open spec fn turned(e: Edge) -> Edge {
    Edge::of(e.target(), e.source(), e.weight())
}

/// `list` holds the edges of `plain` in some order, each as it is or, in an
/// undirected graph, turned round.
pub open spec fn mixed(list: Seq<Edge>, plain: Seq<Edge>, directed: bool) -> bool {
    exists|order: Seq<Edge>|
        {
            &&& #[trigger] order.to_multiset() == plain.to_multiset()
            &&& order.len() == list.len()
            &&& forall|i: int|
                0 <= i < list.len() ==> #[trigger] list[i] == order[i] || (!directed && list[i]
                    == turned(order[i]))
        }
}

impl Graph {
    /// The listed edges under random new names and in random order: the
    /// points `1..=n`, `n` being the number of points, are renamed by a
    /// random permutation, the edges are shuffled, and each edge of an
    /// undirected graph is turned round with a chance of one half. There is
    /// no result where a listed edge has an endpoint outside `1..=n`.
    pub fn shuffled_edges(&self) -> (r: Option<Vec<Edge>>)
        ensures
            exists|keys: Seq<usize>|
                {
                    let listing = gathered(self@, self.directed(), keys);
                    let n = self@.dom().len();
                    &&& #[trigger] enumerates(self@, keys)
                    &&& match r {
                        Some(list) => {
                            &&& forall|j: int|
                                0 <= j < listing.len() ==> in_range(#[trigger] listing[j], n)
                            &&& exists|names: Seq<usize>|
                                #[trigger] names.to_multiset() == points(n).to_multiset() && mixed(
                                    list@,
                                    all_renamed(listing, names),
                                    self.directed(),
                                )
                        },
                        None => exists|j: int|
                            0 <= j < listing.len() && !in_range(#[trigger] listing[j], n),
                    }
                },
    {
        let count = self.point_count();
        let mut names: Vec<usize> = Vec::new();
        let mut point: usize = 0;
        while point < count
            invariant
                point <= count,
                names@ == points(point as nat),
            decreases count - point,
        {
            point += 1;
            names.push(point);
            assert(names@ =~= points(point as nat));
        }
        shuffle(&mut names);
        proof {
            names@.to_multiset_ensures();
            points(count as nat).to_multiset_ensures();
        }
        let edges = self.iter_edges();
        let ghost keys = choose|keys: Seq<usize>|
            enumerates(self@, keys) && edges@ == #[trigger] gathered(self@, self.directed(), keys);
        let mut mixed_up: Vec<Edge> = Vec::new();
        let mut i: usize = 0;
        while i < edges.len()
            invariant
                i <= edges.len(),
                names@.len() == count,
                count == self@.dom().len(),
                enumerates(self@, keys),
                edges@ == gathered(self@, self.directed(), keys),
                forall|j: int| 0 <= j < i ==> in_range(#[trigger] edges@[j], count as nat),
                mixed_up@ == all_renamed(edges@.take(i as int), names@),
            decreases edges.len() - i,
        {
            let (u, v) = edges[i].endpoints();
            if u == 0 || u > count || v == 0 || v > count {
                assert(!in_range(edges@[i as int], count as nat));
                return None;
            }
            mixed_up.push(Edge::new(names[u - 1], names[v - 1], edges[i].get_weight()));
            i += 1;
            assert(mixed_up@ =~= all_renamed(edges@.take(i as int), names@));
        }
        assert(edges@.take(i as int) =~= edges@);
        let ghost plain = mixed_up@;
        shuffle(&mut mixed_up);
        let ghost order = mixed_up@;
        proof {
            plain.to_multiset_ensures();
            order.to_multiset_ensures();
        }
        i = 0;
        while i < mixed_up.len()
            invariant
                i <= mixed_up.len(),
                mixed_up@.len() == order.len(),
                forall|j: int|
                    0 <= j < i ==> #[trigger] mixed_up@[j] == order[j] || (!self.directed
                        && mixed_up@[j] == turned(order[j])),
                forall|j: int| i <= j < mixed_up@.len() ==> #[trigger] mixed_up@[j] == order[j],
            decreases mixed_up.len() - i,
        {
            if !self.directed && toss() {
                let (u, v) = mixed_up[i].endpoints();
                let turned_round = Edge::new(v, u, mixed_up[i].get_weight());
                mixed_up.set(i, turned_round);
            }
            i += 1;
        }
        proof {
            assert(order.to_multiset() == all_renamed(edges@, names@).to_multiset());
            assert(mixed(mixed_up@, all_renamed(edges@, names@), self.directed()));
            assert(names@.to_multiset() == points(count as nat).to_multiset());
            assert(enumerates(self@, keys));
        }
        Some(mixed_up)
    }
}

/// To which point the point `point` of a random tree is tied: in the chain
/// to the point before it, in the flower to the root, and beyond them to
/// none, so that its father is free to choose. The chain takes the points
/// `2..=chain_count + 1`, the flower the `flower_count` points after it.
pub open spec fn tied_father(chain_count: usize, flower_count: usize, point: usize) -> Option<
    usize,
> {
    if point - 1 <= chain_count {
        Some((point - 1) as usize)
    } else if point - 2 - chain_count < flower_count {
        Some(1)
    } else {
        None
    }
}

/// The father to which the point `point` of a random tree is tied, if it is.
pub fn tree_father(chain_count: usize, flower_count: usize, point: usize) -> (father: Option<usize>)
    requires
        point >= 2,
    ensures
        father == tied_father(chain_count, flower_count, point),
{
    if point - 1 <= chain_count {
        Some(point - 1)
    } else if point - 2 - chain_count < flower_count {
        Some(1)
    } else {
        None
    }
}

} // verus!
