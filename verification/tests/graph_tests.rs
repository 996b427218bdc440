use datagen::graph::directed::{NOT_GRAPHICAL, NO_IN_DEGREE, NO_OUT_DEGREE, UNBALANCED};
use datagen::graph::undirected::{ODD_TOTAL, UNSATISFIED};
use datagen::graph::quota::{feed_from, keep_givers, may_precede, sort_quotas, Quota};
use datagen::graph::switching::entry_weights;
use datagen::graph::adjacency::tree_father;
use datagen::graph::{Edge, Graph, SwitchGraph};

fn sorted_edges(g: &SwitchGraph) -> Vec<(usize, usize)> {
    let mut edges = g.iter_edges();
    edges.sort();
    edges
}

fn out_degree(g: &SwitchGraph, v: usize) -> usize {
    g.iter_edges().iter().filter(|e| e.0 == v).count()
}

fn in_degree(g: &SwitchGraph, v: usize) -> usize {
    g.iter_edges().iter().filter(|e| e.1 == v).count()
}

/// Degree in an undirected store: its row, a self-loop counted twice.
fn degree(g: &SwitchGraph, v: usize) -> usize {
    out_degree(g, v) + g.multiplicity(v, v)
}

fn pairs(list: &[(usize, usize)]) -> Vec<Edge> {
    list.iter().map(|&p| Edge::from(p)).collect()
}

fn quota(give: usize, take: usize, vertex: usize) -> Quota {
    Quota { give, take, vertex }
}

fn triples(quotas: &[Quota]) -> Vec<(usize, usize, usize)> {
    quotas.iter().map(|q| (q.give, q.take, q.vertex)).collect()
}

#[test]
fn edge_keeps_its_parts() {
    let plain = Edge::new(3, 4, None);
    assert_eq!(plain.endpoints(), (3, 4));
    assert_eq!(plain.get_weight(), None);
    let heavy = Edge::new(4, 3, Some(-7));
    assert_eq!(heavy.endpoints(), (4, 3));
    assert_eq!(heavy.get_weight(), Some(-7));
    let zero = Edge::new(1, 1, Some(0));
    assert_eq!(zero.get_weight(), Some(0));
}

#[test]
fn edge_converts_from_and_to_pairs() {
    let e = Edge::from((5usize, 6usize));
    assert_eq!(e.endpoints(), (5, 6));
    assert_eq!(e.get_weight(), None);
    let back: (usize, usize) = Edge::new(8, 9, Some(2)).into();
    assert_eq!(back, (8, 9));
    assert_eq!(Edge::from((5u64, 6u64)).endpoints(), (5, 6));
    assert_eq!(Edge::from((5u32, 6u32)).endpoints(), (5, 6));
    assert_eq!(Edge::from((5i32, 6i32)).endpoints(), (5, 6));
    assert_eq!(Edge::from((5i64, 6i64)).endpoints(), (5, 6));
    assert_eq!(Edge::from((5isize, 6isize)).endpoints(), (5, 6));
    assert_eq!(Edge::from((-1isize, 0isize)).endpoints(), (usize::MAX, 0));
}

#[test]
fn empty_store_has_no_edges() {
    let g = SwitchGraph::empty(true);
    assert!(g.is_directed());
    assert!(g.iter_edges().is_empty());
    assert!(g.get_normalized_edges().is_empty());
    assert_eq!(g.multiplicity(0, 0), 0);
}

#[test]
fn insert_counts_parallel_edges() {
    let mut g = SwitchGraph::empty(true);
    g.insert(1, 2);
    g.insert(1, 2);
    g.insert(2, 1);
    assert_eq!(g.multiplicity(1, 2), 2);
    assert_eq!(g.multiplicity(2, 1), 1);
    assert_eq!(sorted_edges(&g), vec![(1, 2), (1, 2), (2, 1)]);
}

#[test]
fn insert_mirrors_in_an_undirected_store() {
    let mut g = SwitchGraph::empty(false);
    g.insert(1, 2);
    assert_eq!(g.multiplicity(1, 2), 1);
    assert_eq!(g.multiplicity(2, 1), 1);
    g.insert(3, 3);
    assert_eq!(g.multiplicity(3, 3), 1);
    assert_eq!(sorted_edges(&g), vec![(1, 2), (2, 1), (3, 3)]);
}

#[test]
fn single_entries_are_not_mirrored() {
    let mut g = SwitchGraph::empty(false);
    g.insert_single(1, 2);
    assert_eq!(g.multiplicity(1, 2), 1);
    assert_eq!(g.multiplicity(2, 1), 0);
    g.remove_single(1, 2);
    g.remove_single(1, 2);
    assert!(g.iter_edges().is_empty());
}

#[test]
fn remove_drops_the_entry_with_the_last_copy() {
    let mut g = SwitchGraph::empty(false);
    g.insert(1, 2);
    g.insert(2, 1);
    assert_eq!(g.multiplicity(1, 2), 2);
    g.remove(1, 2);
    assert_eq!(g.multiplicity(1, 2), 1);
    assert_eq!(g.multiplicity(2, 1), 1);
    g.remove(2, 1);
    assert_eq!(g.multiplicity(1, 2), 0);
    assert!(g.iter_edges().is_empty());
    assert!(g.get_normalized_edges().is_empty());
}

#[test]
fn remove_of_a_missing_edge_changes_nothing() {
    let mut g = SwitchGraph::empty(true);
    g.insert(0, 1);
    g.remove(1, 0);
    g.remove(5, 5);
    assert_eq!(sorted_edges(&g), vec![(0, 1)]);
}

#[test]
fn new_inserts_every_edge_and_drops_weights() {
    let g = SwitchGraph::new(
        vec![Edge::new(0, 1, Some(9)), Edge::new(0, 1, None), Edge::new(2, 2, Some(1))],
        true,
    );
    assert_eq!(sorted_edges(&g), vec![(0, 1), (0, 1), (2, 2)]);
    let u = SwitchGraph::new(pairs(&[(0, 1), (1, 0)]), false);
    assert!(!u.is_directed());
    assert_eq!(u.multiplicity(0, 1), 2);
    assert_eq!(u.multiplicity(1, 0), 2);
}

#[test]
fn from_pairs_builds_the_same_store() {
    let g = SwitchGraph::from_pairs(&vec![(4, 5), (5, 4), (4, 5)], true);
    assert_eq!(sorted_edges(&g), vec![(4, 5), (4, 5), (5, 4)]);
}

#[test]
fn store_takes_the_largest_vertices() {
    let mut g = SwitchGraph::empty(true);
    g.insert(usize::MAX, 0);
    g.insert(0, usize::MAX);
    g.insert(usize::MAX, usize::MAX);
    assert_eq!(g.multiplicity(usize::MAX, 0), 1);
    assert_eq!(g.multiplicity(0, usize::MAX), 1);
    assert_eq!(g.multiplicity(usize::MAX, usize::MAX), 1);
    assert_eq!(g.multiplicity(usize::MAX - 1, usize::MAX), 0);
    assert_eq!(sorted_edges(&g), vec![(0, usize::MAX), (usize::MAX, 0), (usize::MAX, usize::MAX)]);
}

#[test]
fn normalized_edges_of_a_directed_store_are_its_entries() {
    let g = SwitchGraph::new(pairs(&[(2, 1), (2, 1), (0, 3)]), true);
    let mut list = g.get_normalized_edges();
    list.sort();
    assert_eq!(list, vec![((0, 3), 1), ((2, 1), 2)]);
}

#[test]
fn normalized_edges_of_an_undirected_store_put_the_smaller_vertex_first() {
    let g = SwitchGraph::new(pairs(&[(2, 1), (2, 1), (3, 3)]), false);
    let mut list = g.get_normalized_edges();
    list.sort();
    assert_eq!(list, vec![((1, 2), 2), ((1, 2), 2), ((3, 3), 1)]);
}

#[test]
fn switch_edges_exchanges_the_second_endpoints() {
    let mut g = SwitchGraph::new(pairs(&[(0, 1), (2, 3)]), true);
    assert!(g.switch_edges((0, 1), (2, 3), false, false));
    assert_eq!(sorted_edges(&g), vec![(0, 3), (2, 1)]);
    let mut u = SwitchGraph::new(pairs(&[(0, 1), (2, 3)]), false);
    assert!(u.switch_edges((0, 1), (2, 3), true, false));
    assert_eq!(sorted_edges(&u), vec![(0, 3), (1, 2), (2, 1), (3, 0)]);
}

#[test]
fn switch_edges_rejects_a_shared_first_or_second_endpoint() {
    let mut g = SwitchGraph::new(pairs(&[(0, 1), (0, 2), (3, 1)]), true);
    for self_loop in [false, true] {
        for repeated in [false, true] {
            assert!(!g.switch_edges((0, 1), (0, 2), self_loop, repeated));
            assert!(!g.switch_edges((0, 1), (3, 1), self_loop, repeated));
            assert!(!g.switch_edges((0, 1), (0, 1), self_loop, repeated));
        }
    }
    assert_eq!(sorted_edges(&g), vec![(0, 1), (0, 2), (3, 1)]);
}

#[test]
fn switch_edges_with_self_loops_allowed_rejects_any_shared_endpoint() {
    let mut g = SwitchGraph::new(pairs(&[(0, 1), (1, 2)]), true);
    assert!(!g.switch_edges((0, 1), (1, 2), true, true));
    assert!(!g.switch_edges((1, 2), (0, 1), true, true));
    assert_eq!(sorted_edges(&g), vec![(0, 1), (1, 2)]);
}

#[test]
fn switch_edges_with_self_loops_disallowed_looks_at_like_endpoints_only() {
    let mut g = SwitchGraph::new(pairs(&[(0, 1), (1, 2)]), true);
    assert!(g.switch_edges((0, 1), (1, 2), false, true));
    assert_eq!(sorted_edges(&g), vec![(0, 2), (1, 1)]);
}

#[test]
fn switch_edges_without_repeated_edges_rejects_a_stored_cross_edge() {
    let mut g = SwitchGraph::new(pairs(&[(0, 1), (2, 3), (0, 3)]), true);
    assert!(!g.switch_edges((0, 1), (2, 3), false, false));
    assert!(!g.switch_edges((2, 3), (0, 1), false, false));
    assert_eq!(sorted_edges(&g), vec![(0, 1), (0, 3), (2, 3)]);
    assert!(g.switch_edges((0, 1), (2, 3), false, true));
    assert_eq!(sorted_edges(&g), vec![(0, 3), (0, 3), (2, 1)]);
}

#[test]
fn switch_edges_with_repeated_edges_takes_either_cross_edge() {
    let mut g = SwitchGraph::new(pairs(&[(0, 1), (2, 3), (2, 1)]), true);
    assert!(g.switch_edges((0, 1), (2, 3), true, true));
    assert_eq!(sorted_edges(&g), vec![(0, 3), (2, 1), (2, 1)]);
}

#[test]
fn switch_on_a_single_edge_is_rejected() {
    for directed in [true, false] {
        for self_loop in [true, false] {
            for repeated in [true, false] {
                let mut g = SwitchGraph::new(pairs(&[(0, 1)]), directed);
                let before = sorted_edges(&g);
                for _ in 0..50 {
                    assert!(!g.switch(self_loop, repeated));
                    assert_eq!(sorted_edges(&g), before);
                }
                let mut ring = SwitchGraph::new(pairs(&[(4, 4)]), directed);
                for _ in 0..50 {
                    assert!(!ring.switch(self_loop, repeated));
                    assert_eq!(sorted_edges(&ring), vec![(4, 4)]);
                }
            }
        }
    }
}

#[test]
fn switch_on_an_empty_store_is_rejected() {
    let mut g = SwitchGraph::empty(false);
    assert!(!g.switch(true, true));
    assert!(g.iter_edges().is_empty());
}

#[test]
fn switch_keeps_degrees_of_a_directed_store() {
    let edges = [(0, 1), (1, 2), (2, 3), (3, 4), (4, 5), (5, 0), (0, 3), (2, 5)];
    for self_loop in [true, false] {
        for repeated in [true, false] {
            let mut g = SwitchGraph::new(pairs(&edges), true);
            let outs: Vec<usize> = (0..6).map(|v| out_degree(&g, v)).collect();
            let ins: Vec<usize> = (0..6).map(|v| in_degree(&g, v)).collect();
            let mut done = 0;
            for _ in 0..400 {
                if g.switch(self_loop, repeated) {
                    done += 1;
                }
                assert_eq!((0..6).map(|v| out_degree(&g, v)).collect::<Vec<_>>(), outs);
                assert_eq!((0..6).map(|v| in_degree(&g, v)).collect::<Vec<_>>(), ins);
                assert_eq!(g.iter_edges().len(), edges.len());
                assert!(g.iter_edges().iter().all(|e| e.0 < 6 && e.1 < 6));
            }
            assert!(done > 0);
        }
    }
}

#[test]
fn switch_keeps_degrees_of_an_undirected_store() {
    let edges = [(0, 1), (1, 2), (2, 3), (3, 4), (4, 5), (5, 0), (0, 3), (2, 5)];
    for self_loop in [true, false] {
        for repeated in [true, false] {
            let mut g = SwitchGraph::new(pairs(&edges), false);
            let degrees: Vec<usize> = (0..6).map(|v| degree(&g, v)).collect();
            let mut done = 0;
            for _ in 0..400 {
                if g.switch(self_loop, repeated) {
                    done += 1;
                }
                assert_eq!((0..6).map(|v| degree(&g, v)).collect::<Vec<_>>(), degrees);
                for u in 0..6 {
                    for v in 0..6 {
                        assert_eq!(g.multiplicity(u, v), g.multiplicity(v, u));
                    }
                }
            }
            assert!(done > 0);
        }
    }
}

#[test]
fn switch_without_repeated_edges_keeps_a_directed_store_simple() {
    let edges = [(0, 1), (1, 2), (2, 3), (3, 4), (4, 5), (5, 0), (0, 3), (2, 5)];
    for self_loop in [true, false] {
        let mut g = SwitchGraph::new(pairs(&edges), true);
        for _ in 0..400 {
            g.switch(self_loop, false);
            for u in 0..6 {
                for v in 0..6 {
                    assert!(g.multiplicity(u, v) <= 1);
                }
            }
        }
    }
}

#[test]
fn switch_with_self_loops_allowed_makes_no_self_loop() {
    let edges = [(0, 1), (1, 2), (2, 3), (3, 4), (4, 5), (5, 0), (0, 3), (2, 5)];
    for directed in [true, false] {
        let mut g = SwitchGraph::new(pairs(&edges), directed);
        for _ in 0..400 {
            g.switch(true, true);
            for v in 0..6 {
                assert_eq!(g.multiplicity(v, v), 0);
            }
        }
    }
}

#[test]
fn switch_draws_every_pair_of_edges() {
    // With two edges that may be switched, some draw picks them both.
    let mut seen = false;
    for _ in 0..200 {
        let mut g = SwitchGraph::new(pairs(&[(0, 1), (2, 3)]), true);
        if g.switch(false, false) {
            assert_eq!(sorted_edges(&g), vec![(0, 3), (2, 1)]);
            seen = true;
        } else {
            assert_eq!(sorted_edges(&g), vec![(0, 1), (2, 3)]);
        }
    }
    assert!(seen);
}

#[test]
fn directed_sequence_without_out_degree_is_rejected() {
    let r = SwitchGraph::from_directed_degree_sequence(&[(0, 1), (1, 0)], false, false);
    assert_eq!(r.err(), Some(NO_OUT_DEGREE));
    assert_eq!(
        NO_OUT_DEGREE,
        "Degree sequence is not graphical: some vertices have zero out-degree but positive in-degree"
    );
}

#[test]
fn directed_sequence_without_in_degree_is_rejected() {
    let r = SwitchGraph::from_directed_degree_sequence(&[(1, 1), (1, 0), (1, 2)], true, true);
    assert_eq!(r.err(), Some(NO_IN_DEGREE));
    assert_eq!(
        NO_IN_DEGREE,
        "Degree sequence is not graphical: some vertices have zero in-degree but positive out-degree"
    );
}

#[test]
fn directed_sequence_with_unequal_sums_is_rejected() {
    let r = SwitchGraph::from_directed_degree_sequence(&[(1, 2), (1, 1)], true, true);
    assert_eq!(r.err(), Some(UNBALANCED));
    assert_eq!(UNBALANCED, "Degree sequence is not graphical: total out-degree != total in-degree");
    let wrapped = SwitchGraph::from_directed_degree_sequence(
        &[(usize::MAX, 1), (2, 1)],
        true,
        true,
    );
    assert_eq!(wrapped.err(), Some(UNBALANCED));
}

#[test]
fn directed_sequence_that_cannot_be_served_is_rejected() {
    let r = SwitchGraph::from_directed_degree_sequence(&[(1, 1)], false, false);
    assert_eq!(r.err(), Some(NOT_GRAPHICAL));
    assert_eq!(NOT_GRAPHICAL, "Degree sequence is not graphical...");
    let two = SwitchGraph::from_directed_degree_sequence(&[(2, 2), (1, 1)], false, false);
    assert_eq!(two.err(), Some(NOT_GRAPHICAL));
}

#[test]
fn directed_two_cycle() {
    let g = SwitchGraph::from_directed_degree_sequence(&[(1, 1), (1, 1)], false, false).unwrap();
    assert!(g.is_directed());
    assert_eq!(sorted_edges(&g), vec![(0, 1), (1, 0)]);
}

#[test]
fn directed_self_loop_where_allowed() {
    let g = SwitchGraph::from_directed_degree_sequence(&[(1, 1)], true, false).unwrap();
    assert_eq!(sorted_edges(&g), vec![(0, 0)]);
    let h = SwitchGraph::from_directed_degree_sequence(&[(3, 3)], true, true).unwrap();
    assert_eq!(h.multiplicity(0, 0), 3);
}

#[test]
fn directed_greedy_order() {
    let g = SwitchGraph::from_directed_degree_sequence(&[(1, 2), (2, 1), (1, 1)], false, false)
        .unwrap();
    assert_eq!(sorted_edges(&g), vec![(0, 1), (1, 0), (1, 2), (2, 0)]);
}

#[test]
fn directed_repeated_edges_take_from_the_largest() {
    let g = SwitchGraph::from_directed_degree_sequence(&[(3, 1), (1, 3)], false, true).unwrap();
    assert_eq!(sorted_edges(&g), vec![(0, 1), (0, 1), (0, 1), (1, 0)]);
    let simple = SwitchGraph::from_directed_degree_sequence(&[(3, 1), (1, 3)], false, false);
    assert_eq!(simple.err(), Some(NOT_GRAPHICAL));
}

#[test]
fn directed_degrees_are_realized() {
    let sequence = [(2, 1), (1, 2), (2, 2), (1, 1), (3, 3), (1, 1)];
    for self_loop in [true, false] {
        for repeated in [true, false] {
            let built = SwitchGraph::from_directed_degree_sequence(&sequence, self_loop, repeated);
            if let Ok(g) = built {
                for (v, &(out, inn)) in sequence.iter().enumerate() {
                    assert_eq!(out_degree(&g, v), out);
                    assert_eq!(in_degree(&g, v), inn);
                }
                assert!(g.iter_edges().iter().all(|e| e.0 < 6 && e.1 < 6));
                if !self_loop {
                    assert!(g.iter_edges().iter().all(|e| e.0 != e.1));
                }
            }
        }
    }
    assert!(SwitchGraph::from_directed_degree_sequence(&sequence, false, false).is_ok());
}

#[test]
fn undirected_odd_total_is_rejected() {
    let r = SwitchGraph::from_undirected_degree_sequence(&[3], false, false);
    assert_eq!(r.err(), Some(ODD_TOTAL));
    assert_eq!(ODD_TOTAL, "Degree sequence is not graphical: total degree must be even");
    let wide = SwitchGraph::from_undirected_degree_sequence(&[usize::MAX, 2], true, true);
    assert_eq!(wide.err(), Some(ODD_TOTAL));
}

#[test]
fn undirected_sequence_that_cannot_be_served_is_rejected() {
    let r = SwitchGraph::from_undirected_degree_sequence(&[2], false, false);
    assert_eq!(r.err(), Some(UNSATISFIED));
    assert_eq!(
        UNSATISFIED,
        "Degree sequence is not graphical: unable to satisfy degree requirements"
    );
    let pair = SwitchGraph::from_undirected_degree_sequence(&[3, 3, 1, 1], false, false);
    assert_eq!(pair.err(), Some(UNSATISFIED));
    let star = SwitchGraph::from_undirected_degree_sequence(&[3, 1, 1, 1, 2], false, false);
    assert!(star.is_ok());
}

#[test]
fn undirected_three_cycle() {
    let g = SwitchGraph::from_undirected_degree_sequence(&[2, 2, 2], false, false).unwrap();
    assert!(!g.is_directed());
    for v in 0..3 {
        assert_eq!(degree(&g, v), 2);
        assert_eq!(g.multiplicity(v, v), 0);
    }
    let edges = g.iter_edges();
    assert_eq!(edges.iter().filter(|e| e.0 <= e.1).count(), 3);
    assert_eq!(sorted_edges(&g), vec![(0, 1), (0, 2), (1, 0), (1, 2), (2, 0), (2, 1)]);
}

#[test]
fn undirected_self_loops_pay_two_units() {
    let one = SwitchGraph::from_undirected_degree_sequence(&[2], true, false).unwrap();
    assert_eq!(sorted_edges(&one), vec![(0, 0)]);
    let many = SwitchGraph::from_undirected_degree_sequence(&[4], true, true).unwrap();
    assert_eq!(many.multiplicity(0, 0), 2);
    let only_one = SwitchGraph::from_undirected_degree_sequence(&[4], true, false);
    assert_eq!(only_one.err(), Some(UNSATISFIED));
    let mixed = SwitchGraph::from_undirected_degree_sequence(&[3, 1], true, true).unwrap();
    assert_eq!(sorted_edges(&mixed), vec![(0, 0), (0, 1), (1, 0)]);
    assert_eq!(degree(&mixed, 0), 3);
    assert_eq!(degree(&mixed, 1), 1);
}

#[test]
fn undirected_repeated_edges_take_from_the_largest() {
    let g = SwitchGraph::from_undirected_degree_sequence(&[3, 3], false, true).unwrap();
    assert_eq!(g.multiplicity(0, 1), 3);
    assert_eq!(g.multiplicity(1, 0), 3);
    let simple = SwitchGraph::from_undirected_degree_sequence(&[3, 3], false, false);
    assert_eq!(simple.err(), Some(UNSATISFIED));
}

#[test]
fn undirected_greedy_order() {
    // Vertex 1 is served first, from 3, 0 and 2; then 3 from 0.
    let g = SwitchGraph::from_undirected_degree_sequence(&[2, 3, 1, 2], false, false).unwrap();
    assert_eq!(
        sorted_edges(&g),
        vec![(0, 1), (0, 3), (1, 0), (1, 2), (1, 3), (2, 1), (3, 0), (3, 1)]
    );
}

#[test]
fn undirected_degrees_are_realized() {
    let sequence = [3, 3, 2, 2, 2, 4, 1, 1];
    for self_loop in [true, false] {
        for repeated in [true, false] {
            let built =
                SwitchGraph::from_undirected_degree_sequence(&sequence, self_loop, repeated);
            if let Ok(g) = built {
                for (v, &d) in sequence.iter().enumerate() {
                    assert_eq!(degree(&g, v), d);
                }
                if !self_loop {
                    for v in 0..8 {
                        assert_eq!(g.multiplicity(v, v), 0);
                    }
                }
            }
        }
    }
    assert!(SwitchGraph::from_undirected_degree_sequence(&sequence, false, false).is_ok());
}

#[test]
fn builders_take_the_empty_sequence() {
    let d = SwitchGraph::from_directed_degree_sequence(&[], false, false).unwrap();
    assert!(d.is_directed());
    assert!(d.iter_edges().is_empty());
    let u = SwitchGraph::from_undirected_degree_sequence(&[], true, true).unwrap();
    assert!(!u.is_directed());
    assert!(u.iter_edges().is_empty());
}

#[test]
fn builders_take_vertices_without_edges() {
    let d = SwitchGraph::from_directed_degree_sequence(&[(0, 0), (0, 0)], false, false).unwrap();
    assert!(d.iter_edges().is_empty());
    let u = SwitchGraph::from_undirected_degree_sequence(&[0, 0, 0], false, false).unwrap();
    assert!(u.iter_edges().is_empty());
}

#[test]
fn built_stores_can_be_switched() {
    let sequence = [2, 2, 2, 2, 2, 2];
    let mut g = SwitchGraph::from_undirected_degree_sequence(&sequence, false, false).unwrap();
    for _ in 0..200 {
        g.switch(true, false);
        for (v, &d) in sequence.iter().enumerate() {
            assert_eq!(degree(&g, v), d);
        }
    }
}

#[test]
fn quotas_sort_by_give_then_take_and_keep_ties() {
    let mut quotas = vec![
        quota(1, 5, 0),
        quota(2, 0, 1),
        quota(1, 5, 2),
        quota(2, 3, 3),
        quota(0, 9, 4),
        quota(1, 7, 5),
    ];
    sort_quotas(&mut quotas);
    assert_eq!(
        triples(&quotas),
        vec![(2, 3, 3), (2, 0, 1), (1, 7, 5), (1, 5, 0), (1, 5, 2), (0, 9, 4)]
    );
    assert!(may_precede(&quota(2, 0, 0), &quota(1, 9, 1)));
    assert!(may_precede(&quota(1, 1, 0), &quota(1, 1, 1)));
    assert!(!may_precede(&quota(1, 0, 0), &quota(1, 1, 1)));
}

#[test]
fn feed_takes_one_unit_from_each_giver() {
    let mut quotas = vec![quota(2, 0, 7), quota(0, 0, 8), quota(1, 0, 9), quota(3, 0, 6)];
    let (donors, missing) = feed_from(&mut quotas, 0, 2, None, false);
    assert_eq!(donors, vec![7, 9]);
    assert_eq!(missing, 0);
    assert_eq!(triples(&quotas), vec![(1, 0, 7), (0, 0, 8), (0, 0, 9), (3, 0, 6)]);
}

#[test]
fn feed_with_repeated_edges_empties_the_first_giver() {
    let mut quotas = vec![quota(2, 0, 7), quota(0, 0, 8), quota(1, 0, 9), quota(3, 0, 6)];
    let (donors, missing) = feed_from(&mut quotas, 0, 4, Some(9), true);
    assert_eq!(donors, vec![7, 7, 6, 6]);
    assert_eq!(missing, 0);
    assert_eq!(triples(&quotas), vec![(0, 0, 7), (0, 0, 8), (1, 0, 9), (1, 0, 6)]);
}

#[test]
fn feed_reports_what_is_missing() {
    let mut quotas = vec![quota(2, 0, 7), quota(1, 0, 9)];
    let (donors, missing) = feed_from(&mut quotas, 1, 3, None, false);
    assert_eq!(donors, vec![9]);
    assert_eq!(missing, 2);
    let (none, all) = feed_from(&mut quotas, 5, 3, None, false);
    assert!(none.is_empty());
    assert_eq!(all, 3);
}

#[test]
fn keep_givers_drops_the_empty_quotas() {
    let mut quotas = vec![quota(0, 1, 0), quota(2, 0, 1), quota(0, 0, 2), quota(1, 0, 3)];
    keep_givers(&mut quotas);
    assert_eq!(triples(&quotas), vec![(2, 0, 1), (1, 0, 3)]);
}

#[test]
fn graph_starts_with_its_points() {
    let g = Graph::new(4, true);
    assert!(g.is_directed());
    assert_eq!(g.point_count(), 4);
    assert_eq!(g.edge_count(), 0);
    assert!(g.iter_edges().is_empty());
    assert_eq!(Graph::new(0, false).point_count(), 0);
}

#[test]
fn graph_lists_a_directed_edge_once() {
    let mut g = Graph::new(3, true);
    g.add_edge(1, 2, Some(5));
    g.add_edge(3, 1, None);
    assert_eq!(g.edge_count(), 2);
    let mut got: Vec<_> = g.iter_edges().iter().map(|e| (e.endpoints(), e.get_weight())).collect();
    got.sort();
    assert_eq!(got, vec![((1, 2), Some(5)), ((3, 1), None)]);
}

#[test]
fn graph_lists_an_undirected_edge_once() {
    let mut g = Graph::new(3, false);
    g.add_edge(2, 1, Some(5));
    g.add_edge(3, 3, None);
    g.add_edge(1, 3, Some(-1));
    assert_eq!(g.edge_count(), 3);
    let mut got: Vec<_> = g.iter_edges().iter().map(|e| (e.endpoints(), e.get_weight())).collect();
    got.sort();
    assert_eq!(got, vec![((1, 2), Some(5)), ((1, 3), Some(-1)), ((3, 3), None)]);
}

#[test]
fn graph_takes_edges_at_new_points() {
    let mut g = Graph::new(1, false);
    g.add_single_edge(7, 9, None);
    assert_eq!(g.point_count(), 2);
    assert_eq!(g.edge_count(), 1);
    g.add_single_edge(9, 7, None);
    assert_eq!(g.point_count(), 3);
    assert_eq!(g.edge_count(), 1);
    g.add_edge(9, 7, Some(1));
    assert_eq!(g.edge_count(), 2);
}

fn path_graph(directed: bool) -> Graph {
    let mut g = Graph::new(6, directed);
    for i in 1..6 {
        g.add_edge(i, i + 1, Some(i as i64));
    }
    g
}

#[test]
fn shuffled_edges_rename_the_points() {
    let g = path_graph(true);
    let mut plain: Vec<_> = g.iter_edges().iter().map(|e| e.endpoints()).collect();
    plain.sort();
    let mut moved = false;
    for _ in 0..50 {
        let edges = g.shuffled_edges().unwrap();
        assert_eq!(edges.len(), 5);
        // A renamed path is a path: every point starts and ends at most one edge.
        let mut starts = [0; 7];
        let mut ends = [0; 7];
        let mut weights: Vec<i64> = Vec::new();
        for e in &edges {
            let (u, v) = e.endpoints();
            assert!(1 <= u && u <= 6 && 1 <= v && v <= 6 && u != v);
            starts[u] += 1;
            ends[v] += 1;
            weights.push(e.get_weight().unwrap());
        }
        assert!(starts.iter().all(|&c| c <= 1));
        assert!(ends.iter().all(|&c| c <= 1));
        assert_eq!((1..=6).filter(|&p| starts[p] == 1 && ends[p] == 0).count(), 1);
        weights.sort();
        assert_eq!(weights, vec![1, 2, 3, 4, 5]);
        let mut got: Vec<_> = edges.iter().map(|e| e.endpoints()).collect();
        got.sort();
        if got != plain {
            moved = true;
        }
    }
    assert!(moved);
}

#[test]
fn shuffled_edges_come_in_changing_order() {
    let g = path_graph(true);
    let mut orders = std::collections::HashSet::new();
    for _ in 0..50 {
        let edges = g.shuffled_edges().unwrap();
        let weights: Vec<i64> = edges.iter().map(|e| e.get_weight().unwrap()).collect();
        orders.insert(weights);
    }
    assert!(orders.len() > 1);
}

#[test]
fn shuffled_edges_of_an_undirected_graph_are_turned_now_and_then() {
    let mut g = Graph::new(2, false);
    g.add_edge(1, 2, None);
    let mut forth = 0;
    let mut back = 0;
    for _ in 0..200 {
        let edges = g.shuffled_edges().unwrap();
        assert_eq!(edges.len(), 1);
        match edges[0].endpoints() {
            (1, 2) => forth += 1,
            (2, 1) => back += 1,
            other => panic!("not an edge of the graph: {:?}", other),
        }
    }
    assert!(forth > 0 && back > 0);
}

#[test]
fn shuffled_edges_of_a_directed_graph_keep_their_direction() {
    let mut g = Graph::new(1, true);
    g.add_edge(1, 1, Some(4));
    for _ in 0..20 {
        let edges = g.shuffled_edges().unwrap();
        assert_eq!(edges.len(), 1);
        assert_eq!(edges[0].endpoints(), (1, 1));
        assert_eq!(edges[0].get_weight(), Some(4));
    }
}

#[test]
fn shuffled_edges_need_endpoints_among_the_points() {
    let mut low = Graph::new(2, true);
    low.add_edge(0, 1, None);
    assert!(low.shuffled_edges().is_none());
    let mut high = Graph::new(2, true);
    high.add_edge(2, 3, None);
    assert!(high.shuffled_edges().is_none());
    assert!(Graph::new(0, false).shuffled_edges().unwrap().is_empty());
}

#[test]
fn tree_father_ties_chain_and_flower() {
    // Two chain edges, three flower edges.
    assert_eq!(tree_father(2, 3, 2), Some(1));
    assert_eq!(tree_father(2, 3, 3), Some(2));
    assert_eq!(tree_father(2, 3, 4), Some(1));
    assert_eq!(tree_father(2, 3, 6), Some(1));
    assert_eq!(tree_father(2, 3, 7), None);
    assert_eq!(tree_father(0, 0, 2), None);
    assert_eq!(tree_father(0, 1, 2), Some(1));
    assert_eq!(tree_father(0, 1, 3), None);
    assert_eq!(tree_father(usize::MAX, usize::MAX, usize::MAX), Some(usize::MAX - 1));
}

#[test]
fn switch_edges_of_two_self_loops_joins_their_vertices_twice() {
    let mut g = SwitchGraph::new(pairs(&[(0, 0), (1, 1)]), false);
    assert!(g.switch_edges((0, 0), (1, 1), false, false));
    assert_eq!(g.multiplicity(0, 1), 2);
    assert_eq!(g.multiplicity(1, 0), 2);
    assert_eq!(g.multiplicity(0, 0), 0);
    assert_eq!(degree(&g, 0), 2);
    assert_eq!(degree(&g, 1), 2);
    let mut d = SwitchGraph::new(pairs(&[(0, 0), (1, 1)]), true);
    assert!(d.switch_edges((0, 0), (1, 1), false, false));
    assert_eq!(sorted_edges(&d), vec![(0, 1), (1, 0)]);
}

#[test]
fn switch_edges_takes_edges_that_are_not_stored() {
    let mut g = SwitchGraph::new(pairs(&[(0, 1)]), true);
    assert!(g.switch_edges((0, 1), (2, 3), true, true));
    assert_eq!(sorted_edges(&g), vec![(0, 3), (2, 1)]);
}

#[test]
fn entry_weights_are_the_multiplicities() {
    let list = vec![((0, 1), 3), ((2, 2), 1), ((1, 4), 7)];
    assert_eq!(entry_weights(&list), vec![3, 1, 7]);
    assert!(entry_weights(&Vec::new()).is_empty());
}

#[test]
fn switch_drawn_switches_the_entries_that_were_drawn() {
    let mut g = SwitchGraph::new(pairs(&[(0, 1), (2, 3), (4, 5)]), true);
    let view = vec![((0, 1), 1), ((2, 3), 1), ((4, 5), 1)];
    assert!(g.switch_drawn(&view, Some(2), Some(0), false, false));
    assert_eq!(sorted_edges(&g), vec![(0, 5), (2, 3), (4, 1)]);
}

#[test]
fn switch_drawn_rejects_one_entry_drawn_twice() {
    let mut g = SwitchGraph::new(pairs(&[(0, 1), (2, 3)]), true);
    let view = vec![((0, 1), 1), ((2, 3), 1)];
    for self_loop in [true, false] {
        for repeated in [true, false] {
            assert!(!g.switch_drawn(&view, Some(1), Some(1), self_loop, repeated));
            assert!(!g.switch_drawn(&view, None, None, self_loop, repeated));
            assert!(!g.switch_drawn(&view, Some(0), None, self_loop, repeated));
        }
    }
    assert_eq!(sorted_edges(&g), vec![(0, 1), (2, 3)]);
}

#[test]
fn switch_drawn_takes_the_first_entry_for_a_draw_that_gave_none() {
    let mut g = SwitchGraph::new(pairs(&[(0, 1), (2, 3)]), true);
    let view = vec![((0, 1), 1), ((2, 3), 1)];
    assert!(g.switch_drawn(&view, None, Some(1), false, false));
    assert_eq!(sorted_edges(&g), vec![(0, 3), (2, 1)]);
}

#[test]
fn switch_drawn_needs_two_entries() {
    let mut g = SwitchGraph::new(pairs(&[(0, 1), (0, 1)]), true);
    let view = g.get_normalized_edges();
    assert_eq!(view, vec![((0, 1), 2)]);
    assert!(!g.switch_drawn(&view, Some(0), Some(0), true, true));
    assert!(!g.switch_drawn(&view, None, None, true, true));
    assert_eq!(sorted_edges(&g), vec![(0, 1), (0, 1)]);
    let mut none = SwitchGraph::empty(false);
    assert!(!none.switch_drawn(&Vec::new(), None, None, true, true));
}

#[test]
fn switch_with_fewer_than_two_entries_is_rejected() {
    let mut g = SwitchGraph::new(pairs(&[(0, 1), (0, 1), (0, 1)]), true);
    for _ in 0..50 {
        assert!(!g.switch(true, true));
    }
    assert_eq!(g.multiplicity(0, 1), 3);
}

#[test]
fn switch_is_rejected_where_no_two_edges_pass() {
    // A star: every two edges share their first endpoint.
    let mut g = SwitchGraph::new(pairs(&[(0, 1), (0, 2), (0, 3)]), true);
    for _ in 0..100 {
        assert!(!g.switch(false, true));
    }
    assert_eq!(sorted_edges(&g), vec![(0, 1), (0, 2), (0, 3)]);
}

#[test]
fn normalized_edges_list_each_entry_once() {
    let g = SwitchGraph::new(pairs(&[(0, 1), (0, 1), (1, 2), (3, 3)]), false);
    assert_eq!(g.get_normalized_edges().len(), 5);
    let d = SwitchGraph::new(pairs(&[(0, 1), (0, 1), (1, 2), (3, 3)]), true);
    assert_eq!(d.get_normalized_edges().len(), 3);
}
