//! Ring building and the zone-diverse walk.

use garage_core::data::FixedBytes32;
use garage_core::layout::{ClusterLayout, NodeRole};
use garage_core::ring::Ring;

fn uuid(n: u8) -> FixedBytes32 {
    FixedBytes32 { b: [n; 32] }
}

fn role(zone: &str, capacity: u64) -> NodeRole {
    NodeRole { zone: zone.as_bytes().to_vec(), capacity: Some(capacity), tags: Vec::new() }
}

fn committed_layout(assignments: &[(u8, &str, u64)], rf: usize) -> ClusterLayout {
    let mut l = ClusterLayout::new(rf);
    for (n, zone, cap) in assignments {
        l.stage(&uuid(*n), Some(role(zone, *cap)));
    }
    l.commit(1).unwrap();
    l
}

fn zone_of(l: &ClusterLayout, id: &FixedBytes32) -> Vec<u8> {
    for e in &l.roles {
        if e.node.b == id.b {
            return e.role.as_ref().unwrap().zone.clone();
        }
    }
    panic!("node has no role");
}

#[test]
fn build_is_deterministic() {
    let l = committed_layout(&[(1, "z1", 3), (2, "z2", 2), (3, "z3", 1)], 3);
    let r1 = Ring::new(l.duplicate());
    let r2 = Ring::new(l);
    assert_eq!(r1.ring, r2.ring);
    assert_eq!(r1.n_datacenters, r2.n_datacenters);
    assert_eq!(r1.n_datacenters, 3);
}

#[test]
fn ring_is_sorted_by_location() {
    let l = committed_layout(&[(1, "z1", 2), (2, "z2", 2)], 2);
    let r = Ring::new(l);
    assert!(r.ring.len() > 0);
    for w in r.ring.windows(2) {
        assert!(w[0].location.b <= w[1].location.b);
    }
}

#[test]
fn three_nodes_three_zones_walk_returns_all() {
    // Three nodes, replication factor three, one zone per node: every
    // key yields a permutation of the three nodes with all zones
    // represented.
    let l = committed_layout(&[(1, "z1", 100), (2, "z2", 100), (3, "z3", 100)], 3);
    let ring = Ring::new(l.duplicate());
    for k in [0u8, 7, 99, 200] {
        let picked = ring.walk_ring(&uuid(k), 3);
        assert_eq!(picked.len(), 3);
        let mut ids: Vec<u8> = picked.iter().map(|u| u.b[0]).collect();
        ids.sort_unstable();
        assert_eq!(ids, vec![1, 2, 3]);
        let mut zones: Vec<Vec<u8>> = picked.iter().map(|u| zone_of(&l, u)).collect();
        zones.sort();
        zones.dedup();
        assert_eq!(zones.len(), 3);
    }
}

#[test]
fn four_nodes_two_zones_walk_covers_both_zones() {
    // Two zones with two nodes each, replication factor three: every
    // returned triple holds at least one node of each zone.
    let l = committed_layout(&[(1, "za", 10), (2, "za", 10), (3, "zb", 10), (4, "zb", 10)], 3);
    let ring = Ring::new(l.duplicate());
    for k in [0u8, 3, 50, 128, 250] {
        let picked = ring.walk_ring(&uuid(k), 3);
        assert_eq!(picked.len(), 3);
        let mut in_a = 0;
        let mut in_b = 0;
        for u in &picked {
            if zone_of(&l, u) == b"za".to_vec() {
                in_a += 1;
            } else {
                in_b += 1;
            }
        }
        assert!(in_a >= 1 && in_b >= 1);
    }
}

#[test]
fn walk_length_is_min_of_n_and_node_count() {
    let l = committed_layout(&[(1, "z1", 5), (2, "z2", 5), (3, "z3", 5)], 3);
    let ring = Ring::new(l);
    let k = uuid(42);
    assert_eq!(ring.walk_ring(&k, 0).len(), 0);
    assert_eq!(ring.walk_ring(&k, 1).len(), 1);
    assert_eq!(ring.walk_ring(&k, 2).len(), 2);
    assert_eq!(ring.walk_ring(&k, 3).len(), 3);
    // Asking for more replicas than nodes yields the whole node set.
    assert_eq!(ring.walk_ring(&k, 5).len(), 3);
    assert_eq!(ring.walk_ring(&k, 100).len(), 3);
}

#[test]
fn walk_is_deterministic_per_key() {
    let l = committed_layout(&[(1, "z1", 4), (2, "z2", 4), (3, "z3", 4), (4, "z1", 4)], 3);
    let ring = Ring::new(l);
    for k in [1u8, 2, 3] {
        let a = ring.walk_ring(&uuid(k), 2);
        let b = ring.walk_ring(&uuid(k), 2);
        assert_eq!(a, b);
    }
}

#[test]
fn walk_returns_distinct_zones_when_zones_suffice() {
    let l = committed_layout(&[(1, "z1", 2), (2, "z2", 2), (3, "z3", 2), (4, "z2", 2)], 3);
    let ring = Ring::new(l.duplicate());
    for k in [0u8, 17, 91, 222] {
        let picked = ring.walk_ring(&uuid(k), 2);
        assert_eq!(picked.len(), 2);
        assert_ne!(zone_of(&l, &picked[0]), zone_of(&l, &picked[1]));
    }
}

#[test]
fn gateway_nodes_get_no_tokens() {
    let mut l = ClusterLayout::new(1);
    l.stage(&uuid(1), Some(role("z1", 1)));
    l.stage(
        &uuid(2),
        Some(NodeRole { zone: b"z2".to_vec(), capacity: None, tags: Vec::new() }),
    );
    l.commit(1).unwrap();
    let ring = Ring::new(l);
    for e in &ring.ring {
        assert_eq!(e.node.b, [1u8; 32]);
    }
    // The gateway is not in the walk either.
    let picked = ring.walk_ring(&uuid(9), 5);
    assert_eq!(picked.len(), 1);
    assert_eq!(picked[0].b, [1u8; 32]);
}

#[test]
fn capacity_scales_token_count() {
    let l = committed_layout(&[(1, "z1", 1), (2, "z2", 3)], 2);
    let ring = Ring::new(l);
    let n1 = ring.ring.iter().filter(|e| e.node.b == [1u8; 32]).count();
    let n2 = ring.ring.iter().filter(|e| e.node.b == [2u8; 32]).count();
    assert_eq!(n1, 16);
    assert_eq!(n2, 48);
}

#[test]
fn rebuild_follows_layout_change() {
    let l = committed_layout(&[(1, "z1", 1)], 1);
    let mut ring = Ring::new(l);
    assert_eq!(ring.n_datacenters, 1);
    ring.layout.stage(&uuid(2), Some(role("z2", 1)));
    ring.layout.commit(2).unwrap();
    ring.rebuild_ring();
    assert_eq!(ring.n_datacenters, 2);
    assert_eq!(ring.ring.len(), 32);
}
