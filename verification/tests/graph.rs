use gta_core::graph::{WalkGraph, WalkKind};

fn chain(n: usize) -> (WalkGraph, Vec<u32>) {
    let mut g = WalkGraph::new();
    let ids: Vec<_> = (0..n).map(|_| g.add(WalkKind::Sidewalk)).collect();
    for w in ids.windows(2) {
        g.link(w[0], w[1]);
    }
    (g, ids)
}

#[test]
fn links_are_symmetric_and_deduped() {
    let mut g = WalkGraph::new();
    let a = g.add(WalkKind::Sidewalk);
    let b = g.add(WalkKind::Crossing);
    g.link(a, b);
    g.link(b, a);
    g.link(a, a);
    assert_eq!(g.neighbours(a), &[b]);
    assert_eq!(g.neighbours(b), &[a]);
    assert_eq!(g.edge_count(), 1);
}

#[test]
fn bfs_finds_short_path() {
    let (g, ids) = chain(6);
    assert_eq!(g.bfs_depth(ids[0], ids[3], 10), Some(3));
    assert_eq!(g.bfs_depth(ids[0], ids[5], 2), None);
    assert_eq!(g.bfs_depth(ids[2], ids[2], 4), Some(0));
}

#[test]
fn add_numbers_nodes_in_order() {
    let mut g = WalkGraph::new();
    assert!(g.is_empty());
    assert_eq!(g.add(WalkKind::Plaza), 0);
    assert_eq!(g.add(WalkKind::Park), 1);
    assert_eq!(g.len(), 2);
    assert_eq!(g.kind(1), WalkKind::Park);
    assert!(g.neighbours(0).is_empty());
    g.link(0, 7);
    assert_eq!(g.edge_count(), 0);
}

#[test]
fn ring_closes_the_loop() {
    let mut g = WalkGraph::new();
    let ids: Vec<_> = (0..4).map(|_| g.add(WalkKind::Sidewalk)).collect();
    g.link_ring(&ids);
    assert_eq!(g.edge_count(), 4);
    assert_eq!(g.neighbours(ids[0]), &[ids[1], ids[3]]);
    assert_eq!(g.unreachable_from(ids[0]), 0);
    let far = g.add(WalkKind::Plaza);
    assert!(g.neighbours(far).is_empty());
    assert_eq!(g.unreachable_from(ids[0]), 1);
    let mut h = WalkGraph::new();
    let one = h.add(WalkKind::Sidewalk);
    h.link_ring(&[one]);
    assert_eq!(h.edge_count(), 0);
}

#[test]
fn next_step_walks_a_shortest_path() {
    // A ring of six with a shortcut 0-3.
    let mut g = WalkGraph::new();
    let ids: Vec<_> = (0..6).map(|_| g.add(WalkKind::Sidewalk)).collect();
    g.link_ring(&ids);
    g.link(ids[0], ids[3]);
    // 0-5-4 and 0-3-4 are both shortest; the search meets 5 first.
    assert_eq!(g.next_step(ids[0], ids[4], 10), Some(ids[5]));
    assert_eq!(g.next_step(ids[0], ids[3], 10), Some(ids[3]));
    assert_eq!(g.next_step(ids[0], ids[2], 10), Some(ids[1]));
    assert_eq!(g.next_step(ids[0], ids[1], 10), Some(ids[1]));
    assert_eq!(g.next_step(ids[0], ids[0], 10), None);
    assert_eq!(g.next_step(ids[0], ids[4], 1), None);
    assert_eq!(g.next_step(ids[0], ids[4], 2), Some(ids[5]));
    assert_eq!(g.next_step(ids[0], 99, 10), None);
    assert_eq!(g.bfs_depth(ids[0], ids[4], 10), Some(2));
}

#[test]
fn unreachable_nodes_are_counted() {
    let (mut g, ids) = chain(5);
    assert_eq!(g.unreachable_from(ids[4]), 0);
    let lone = g.add(WalkKind::Frontage);
    let other = g.add(WalkKind::Frontage);
    g.link(lone, other);
    assert_eq!(g.unreachable_from(ids[0]), 2);
    assert_eq!(g.unreachable_from(lone), 5);
    assert_eq!(g.next_step(ids[0], lone, 100), None);
    assert_eq!(g.bfs_depth(ids[0], lone, 100), None);
    assert_eq!(WalkGraph::new().unreachable_from(0), 0);
}

#[test]
fn closed_ring_leaves_only_strays_unreachable() {
    let mut g = WalkGraph::new();
    let ids: Vec<u32> = (0..4).map(|_| g.add(WalkKind::Sidewalk)).collect();
    g.link_ring(&ids);
    assert_eq!(g.unreachable_from(ids[0]), 0);
    let far = g.add(WalkKind::Plaza);
    assert!(g.neighbours(far).is_empty());
    assert_eq!(g.unreachable_from(ids[0]), 1);
    assert_eq!(g.len() - g.unreachable_from(ids[0]), 4);
}
