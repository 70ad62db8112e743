//! Peer table liveness and decay.

use garage_core::data::{FixedBytes32, IpBytes, NodeAddr};
use garage_core::peers::{merge_peer_lists, AdvertisedNode, Status};

fn uuid(n: u8) -> FixedBytes32 {
    FixedBytes32 { b: [n; 32] }
}

fn addr(last: u8, port: u16) -> NodeAddr {
    NodeAddr { ip: IpBytes::V4([10, 0, 0, last]), port }
}

#[test]
fn peer_decay_marks_down_then_removes() {
    // A fresh peer has three attempts; the third consecutive failure
    // marks it down, the fourth removes it from the table.
    let mut st = Status::new();
    let id = uuid(2);
    st.handle_ping(&id, addr(2, 3901), 1_000);
    assert_eq!(st.nodes.len(), 1);
    assert_eq!(st.nodes[0].remaining_ping_attempts, 3);
    assert!(st.nodes[0].is_up);

    st.record_ping_failure(&id);
    assert!(st.nodes[0].is_up);
    assert_eq!(st.nodes[0].remaining_ping_attempts, 2);
    st.record_ping_failure(&id);
    assert!(st.nodes[0].is_up);
    assert_eq!(st.nodes[0].remaining_ping_attempts, 1);
    st.record_ping_failure(&id);
    assert!(!st.nodes[0].is_up);
    assert_eq!(st.nodes[0].remaining_ping_attempts, 0);
    st.record_ping_failure(&id);
    assert_eq!(st.nodes.len(), 0);
}

#[test]
fn ping_success_resets_the_allowance() {
    let mut st = Status::new();
    let id = uuid(5);
    st.handle_ping(&id, addr(5, 3901), 500);
    st.record_ping_failure(&id);
    st.record_ping_failure(&id);
    assert_eq!(st.nodes[0].remaining_ping_attempts, 1);
    st.record_ping_success(&id, 9_000);
    assert_eq!(st.nodes[0].remaining_ping_attempts, 3);
    assert!(st.nodes[0].is_up);
    assert_eq!(st.nodes[0].last_seen, Some(9_000));
}

#[test]
fn handle_ping_reports_new_and_moved_peers() {
    let mut st = Status::new();
    let id = uuid(7);
    assert!(st.handle_ping(&id, addr(7, 3901), 1));
    assert!(!st.handle_ping(&id, addr(7, 3901), 2));
    assert!(st.handle_ping(&id, addr(8, 3901), 3));
    assert!(st.handle_ping(&id, addr(8, 3902), 4));
}

#[test]
fn table_stays_sorted_by_identifier() {
    let mut st = Status::new();
    for n in [9u8, 3, 7, 1] {
        st.handle_ping(&uuid(n), addr(n, 3901), 10);
    }
    let ids: Vec<u8> = st.nodes.iter().map(|e| e.id.b[0]).collect();
    assert_eq!(ids, vec![1, 3, 7, 9]);
}

#[test]
fn status_hash_follows_the_table() {
    let mut st = Status::new();
    let h0 = st.hash;
    st.handle_ping(&uuid(1), addr(1, 3901), 10);
    st.recalculate_hash();
    let h1 = st.hash;
    assert_ne!(h0.b, h1.b);
    st.handle_ping(&uuid(2), addr(2, 3901), 11);
    st.recalculate_hash();
    let h2 = st.hash;
    assert_ne!(h1.b, h2.b);
    // Liveness bookkeeping does not enter the hash.
    st.record_ping_failure(&uuid(1));
    st.recalculate_hash();
    assert_eq!(st.hash.b, h2.b);
}

#[test]
fn peer_list_merge_keeps_old_identifiers() {
    let current = vec![
        AdvertisedNode { id: uuid(1), addr: addr(1, 3901) },
        AdvertisedNode { id: uuid(2), addr: addr(2, 3901) },
    ];
    let previous = vec![
        AdvertisedNode { id: uuid(2), addr: addr(9, 9999) },
        AdvertisedNode { id: uuid(3), addr: addr(3, 3901) },
    ];
    let merged = merge_peer_lists(&current, &previous);
    let ids: Vec<u8> = merged.iter().map(|e| e.id.b[0]).collect();
    assert_eq!(ids, vec![1, 2, 3]);
    // The fresh address for a known peer wins.
    assert_eq!(merged[1].addr, addr(2, 3901));
}
