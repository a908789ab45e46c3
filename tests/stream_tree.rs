use fastlem::{check_configuration, next_step, DrainageBasin, GenerateError, RidgeElement, RidgeQueue, SiteGraph, StreamTree, TreeError};

/// A path 0 - 1 - ... - (n-1) with every edge of length key `d`.
fn chain(n: usize, d: u64) -> SiteGraph {
    let mut neighbors: Vec<Vec<(usize, u64)>> = vec![Vec::new(); n];
    for i in 0..n.saturating_sub(1) {
        neighbors[i].push((i + 1, d));
        neighbors[i + 1].push((i, d));
    }
    SiteGraph { neighbors }
}

fn flat_slopes(graph: &SiteGraph) -> Vec<Vec<u64>> {
    graph.neighbors.iter().map(|n| vec![0; n.len()]).collect()
}

#[test]
fn two_sites_flat_drain_to_the_outlet() {
    let graph = chain(2, 1);
    let slopes = flat_slopes(&graph);
    let tree = StreamTree::construct(&[(); 2], &vec![0, 0], &slopes, &graph, &[0]).unwrap();
    assert_eq!(tree.next, vec![0, 0]);
}

#[test]
fn line_of_three_flat_drains_along_the_line() {
    let graph = chain(3, 1);
    let slopes = flat_slopes(&graph);
    let tree = StreamTree::construct(&[(); 3], &vec![0, 0, 0], &slopes, &graph, &[0]).unwrap();
    assert_eq!(tree.next, vec![0, 0, 1]);
}

#[test]
fn local_minimum_in_the_middle_is_carved() {
    // elevations 1, 0, 2: the middle site is a lake bottom, the tip drains into it
    let graph = chain(3, 1);
    let slopes = vec![vec![0], vec![0, 0], vec![2]];
    let tree = StreamTree::construct(&[(); 3], &vec![1, 0, 2], &slopes, &graph, &[0]).unwrap();
    assert_eq!(tree.next, vec![0, 0, 1]);
}

#[test]
fn carving_reverses_the_flow_down_to_the_lake_bottom() {
    // elevations 0, 5, 3, 1: site 3 is a lake bottom that site 2 drains into
    let graph = chain(4, 1);
    let slopes = vec![vec![0], vec![5, 2], vec![0, 2], vec![0]];
    let tree = StreamTree::construct(&[(); 4], &vec![0, 5, 3, 1], &slopes, &graph, &[0]).unwrap();
    assert_eq!(tree.next, vec![0, 0, 1, 2]);
}

#[test]
fn steepest_first_neighbor_wins_ties() {
    // site 1 between two outlets, both edges equally steep: the first listed wins
    let graph = chain(3, 1);
    let slopes = vec![vec![0], vec![4, 4], vec![0]];
    let tree = StreamTree::construct(&[(); 3], &vec![0, 4, 0], &slopes, &graph, &[0, 2]).unwrap();
    assert_eq!(tree.next, vec![0, 0, 2]);
    let slopes = vec![vec![0], vec![3, 4], vec![0]];
    let tree = StreamTree::construct(&[(); 3], &vec![1, 4, 0], &slopes, &graph, &[0, 2]).unwrap();
    assert_eq!(tree.next, vec![0, 2, 2]);
}

#[test]
fn site_without_path_to_an_outlet_is_an_error() {
    let graph = SiteGraph { neighbors: vec![Vec::new(), Vec::new()] };
    let slopes = flat_slopes(&graph);
    let r = StreamTree::construct(&[(); 2], &vec![0, 0], &slopes, &graph, &[0]);
    assert!(matches!(r, Err(TreeError::Unreachable)));
}

#[test]
fn no_outlet_at_all_is_an_error() {
    let graph = chain(2, 1);
    let slopes = flat_slopes(&graph);
    let r = StreamTree::construct(&[(); 2], &vec![0, 0], &slopes, &graph, &[]);
    assert!(matches!(r, Err(TreeError::Unreachable)));
}

#[test]
fn every_site_reaches_an_outlet_within_n_steps() {
    let graph = chain(5, 1);
    let slopes = vec![vec![0], vec![0, 0], vec![0, 0], vec![0, 0], vec![0]];
    let tree = StreamTree::construct(&[(); 5], &vec![3, 1, 2, 0, 4], &slopes, &graph, &[0, 4]).unwrap();
    for i in 0..5 {
        let mut v = i;
        for _ in 0..5 {
            v = tree.next[v];
        }
        assert!(v == 0 || v == 4);
    }
    for o in 0..5 {
        assert_eq!(tree.next[o] == o, o == 0 || o == 4);
    }
}

#[test]
fn outlet_table_marks_listed_sites() {
    let t = StreamTree::create_outlet_table(&[(); 4], &[3, 1, 3]);
    assert_eq!(t, vec![false, true, false, true]);
}

#[test]
fn roots_with_and_without_lakes() {
    let (roots, lake) = StreamTree::find_roots_with_lakes(3, &[true, false, false], &[0, 0, 1]);
    assert_eq!(roots, vec![0, 0, 0]);
    assert!(!lake);
    let (roots, lake) = StreamTree::find_roots_with_lakes(4, &[true, false, false, false], &[0, 0, 2, 2]);
    assert_eq!(roots, vec![0, 0, 2, 2]);
    assert!(lake);
}

#[test]
fn ridge_queue_pops_longest_first() {
    // among equal lengths the greater index leaves first
    let mut q = RidgeQueue::new();
    assert!(q.pop().is_none());
    q.push(RidgeElement { index: 1, dist: 3 });
    q.push(RidgeElement { index: 2, dist: 7 });
    q.push(RidgeElement { index: 3, dist: 7 });
    q.push(RidgeElement { index: 4, dist: 0 });
    assert_eq!(q.len(), 4);
    assert_eq!(q.pop(), Some(RidgeElement { index: 3, dist: 7 }));
    assert_eq!(q.pop(), Some(RidgeElement { index: 2, dist: 7 }));
    assert_eq!(q.pop(), Some(RidgeElement { index: 1, dist: 3 }));
    assert_eq!(q.pop(), Some(RidgeElement { index: 4, dist: 0 }));
    assert!(q.is_empty());
}

#[test]
fn basin_orders_follow_the_tree() {
    let graph = chain(3, 1);
    let tree = StreamTree { next: vec![0, 0, 1] };
    let basin = DrainageBasin::construct(0, &tree, &graph);
    assert_eq!(basin.upstream, vec![0, 1, 2]);
    assert_eq!(basin.downstream(), vec![2, 1, 0]);
}

#[test]
fn basins_of_two_outlets_are_disjoint() {
    let graph = chain(5, 1);
    let tree = StreamTree { next: vec![0, 0, 1, 4, 4] };
    let a = DrainageBasin::construct(0, &tree, &graph);
    let b = DrainageBasin::construct(4, &tree, &graph);
    assert_eq!(a.upstream, vec![0, 1, 2]);
    assert_eq!(b.upstream, vec![4, 3]);
}

#[test]
fn invalid_attribute_length_is_refused() {
    assert_eq!(check_configuration(true, 3, Some(2)), Err(GenerateError::AttributeCountMismatch));
    assert_eq!(check_configuration(false, 3, Some(3)), Err(GenerateError::MissingModel));
    assert_eq!(check_configuration(true, 3, None), Err(GenerateError::MissingAttributes));
    assert_eq!(check_configuration(true, 3, Some(3)), Ok(()));
}

#[test]
fn iteration_cap_stops_after_one_pass() {
    assert_eq!(next_step(true, 0, Some(1)), None);
    assert_eq!(next_step(true, 0, Some(2)), Some(1));
    assert_eq!(next_step(true, 5, None), Some(6));
    assert_eq!(next_step(false, 0, None), None);
}

/// Outlet 0 with two drained neighbors 1 and 2 that both border the lake
/// bottom 3; the edge lengths 0-1 and 0-2 are `a` and `b`.
fn two_ridges(a: u64, b: u64) -> Vec<usize> {
    let graph = SiteGraph {
        neighbors: vec![vec![(1, a), (2, b)], vec![(0, a), (3, 1)], vec![(0, b), (3, 1)], vec![(1, 1), (2, 1)]],
    };
    let slopes = vec![vec![0, 0], vec![10, 4], vec![10, 4], vec![0, 0]];
    StreamTree::construct(&[(); 4], &vec![0, 5, 5, 1], &slopes, &graph, &[0]).unwrap().next
}

#[test]
fn lake_drains_across_the_ridge_taken_first() {
    assert_eq!(two_ridges(1, 5), vec![0, 0, 0, 2]);
    assert_eq!(two_ridges(5, 1), vec![0, 0, 0, 1]);
}

#[test]
fn upstream_order_lists_each_site_after_its_receiver() {
    // a lake at site 3 and a tip at 4, carved towards the outlet
    let graph = chain(5, 1);
    let slopes = vec![vec![0], vec![6, 0], vec![0, 2], vec![0, 0], vec![3]];
    let tree = StreamTree::construct(&[(); 5], &vec![0, 6, 3, 1, 4], &slopes, &graph, &[0]).unwrap();
    let basin = DrainageBasin::construct(0, &tree, &graph);
    assert_eq!(basin.upstream.len(), 5);
    assert_eq!(basin.upstream[0], 0);
    for (p, &i) in basin.upstream.iter().enumerate() {
        if i != 0 {
            let q = basin.upstream.iter().position(|&s| s == tree.next[i]).unwrap();
            assert!(q < p);
        }
    }
}

#[test]
fn constructing_twice_gives_the_same_tree() {
    let graph = chain(4, 2);
    let slopes = vec![vec![0], vec![5, 2], vec![0, 2], vec![0]];
    let a = StreamTree::construct(&[(); 4], &vec![0, 5, 3, 1], &slopes, &graph, &[0]).unwrap();
    let b = StreamTree::construct(&[(); 4], &vec![0, 5, 3, 1], &slopes, &graph, &[0]).unwrap();
    assert_eq!(a.next, b.next);
}

#[test]
fn every_error_has_a_message() {
    for e in [
        GenerateError::MissingModel,
        GenerateError::MissingAttributes,
        GenerateError::AttributeCountMismatch,
        GenerateError::IllFormedGraph,
    ] {
        assert!(!e.message().is_empty());
    }
    assert_ne!(GenerateError::MissingModel.message(), GenerateError::IllFormedGraph.message());
}

#[test]
fn ridge_scenario_with_lengths_one_and_three() {
    // elevations 0, 5, 5, 4.9; edges 0-1 of length 1, 0-2 of length 3
    let graph = SiteGraph {
        neighbors: vec![vec![(1, 1), (2, 3)], vec![(0, 1), (3, 1)], vec![(0, 3), (3, 1)], vec![(1, 1), (2, 1)]],
    };
    let slopes = vec![vec![0, 0], vec![50, 1], vec![16, 1], vec![0, 0]];
    let tree = StreamTree::construct(&[(); 4], &vec![0, 50, 50, 49], &slopes, &graph, &[0]).unwrap();
    assert_eq!(tree.next, vec![0, 0, 0, 2]);
}
