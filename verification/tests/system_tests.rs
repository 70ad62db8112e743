//! The membership manager's decisions, the status report, and the
//! operator helpers.

use garage_core::admin::{cluster_status_report, revert_staged, select_node};
use garage_core::data::{FixedBytes32, IpBytes, NodeAddr};
use garage_core::error::Error;
use garage_core::layout::{ClusterLayout, NodeRole};
use garage_core::system::{NodeStatus, StatusAction, System, SystemRpc};

fn uuid(n: u8) -> FixedBytes32 {
    FixedBytes32 { b: [n; 32] }
}

fn addr(last: u8) -> NodeAddr {
    NodeAddr { ip: IpBytes::V4([10, 0, 0, last]), port: 3901 }
}

fn role(zone: &str, capacity: u64) -> NodeRole {
    NodeRole { zone: zone.as_bytes().to_vec(), capacity: Some(capacity), tags: Vec::new() }
}

fn fresh_system(rf: usize) -> System {
    System::new(uuid(1), rf, "host-one".to_owned(), ClusterLayout::new(rf)).unwrap()
}

fn status(rf: usize, version: u64, staging_hash: FixedBytes32) -> NodeStatus {
    NodeStatus {
        hostname: "peer".to_owned(),
        replication_factor: rf,
        cluster_layout_version: version,
        cluster_layout_staging_hash: staging_hash,
    }
}

#[test]
fn new_refuses_replication_factor_mismatch() {
    let r = System::new(uuid(1), 3, "h".to_owned(), ClusterLayout::new(2));
    assert!(matches!(r, Err(Error::Forbidden(_))));
}

#[test]
fn higher_replication_factor_is_fatal() {
    let mut sys = fresh_system(3);
    let hash = sys.ring.layout.staging_hash;
    let info = status(5, 0, hash);
    let act = sys.handle_advertise_status(&uuid(2), &info, 1_000);
    assert_eq!(act, StatusAction::Fatal);
    // Nothing was recorded.
    assert_eq!(sys.node_status.len(), 0);
}

#[test]
fn newer_layout_version_asks_for_a_pull() {
    let mut sys = fresh_system(3);
    let hash = sys.ring.layout.staging_hash;
    let act = sys.handle_advertise_status(&uuid(2), &status(3, 9, hash), 1_000);
    assert_eq!(act, StatusAction::PullLayout);
    assert_eq!(sys.node_status.len(), 1);
    let act2 = sys.handle_advertise_status(&uuid(2), &status(3, 0, hash), 2_000);
    assert_eq!(act2, StatusAction::NoAction);
    assert_eq!(sys.node_status.len(), 1);
    assert_eq!(sys.node_status[0].time_ms, 2_000);
}

#[test]
fn diverged_staging_hash_asks_for_a_pull() {
    let mut sys = fresh_system(3);
    let act = sys.handle_advertise_status(&uuid(2), &status(3, 0, uuid(0xaa)), 1_000);
    assert_eq!(act, StatusAction::PullLayout);
}

#[test]
fn advertised_layout_is_merged_and_ring_rebuilt() {
    let mut sys = fresh_system(1);
    let mut adv = ClusterLayout::new(1);
    adv.stage(&uuid(7), Some(role("z1", 2)));
    adv.commit(1).unwrap();
    let r = sys.handle_advertise_cluster_layout(&adv);
    assert_eq!(r.unwrap(), true);
    assert_eq!(sys.ring.layout.version, 1);
    assert_eq!(sys.ring.ring.len(), 32);
    // The same advertisement again changes nothing.
    let r2 = sys.handle_advertise_cluster_layout(&adv);
    assert_eq!(r2.unwrap(), false);
    sys.update_local_status();
    assert_eq!(sys.local_status.cluster_layout_version, 1);
}

#[test]
fn advertised_layout_with_other_replication_factor_is_refused() {
    let mut sys = fresh_system(1);
    let adv = ClusterLayout::new(3);
    let r = sys.handle_advertise_cluster_layout(&adv);
    assert!(matches!(r, Err(Error::Forbidden(_))));
    assert_eq!(sys.ring.layout.version, 0);
}

#[test]
fn rpc_dispatch_answers_pulls_and_refuses_answers() {
    let mut sys = fresh_system(1);
    let (r, act) = sys.handle_rpc(&SystemRpc::PullClusterLayout, &uuid(2), 0);
    assert!(matches!(r, Ok(SystemRpc::AdvertiseClusterLayout(_))));
    assert_eq!(act, StatusAction::NoAction);
    let (r2, _) = sys.handle_rpc(&SystemRpc::GetKnownNodes, &uuid(2), 0);
    assert!(matches!(r2, Ok(SystemRpc::ReturnKnownNodes(_))));
    let (r3, _) = sys.handle_rpc(&SystemRpc::Accepted, &uuid(2), 0);
    assert!(matches!(r3, Err(Error::UnexpectedMessage)));
    let (r4, _) = sys.handle_rpc(&SystemRpc::ReturnKnownNodes(Vec::new()), &uuid(2), 0);
    assert!(matches!(r4, Err(Error::UnexpectedMessage)));
    let (r5, _) = sys.handle_rpc(&SystemRpc::Connect("ab@10.0.0.9:3901".to_owned()), &uuid(2), 0);
    assert!(matches!(r5, Ok(SystemRpc::Accepted)));
}

#[test]
fn known_nodes_report_liveness_and_placeholder_status() {
    let mut sys = fresh_system(3);
    sys.status.handle_ping(&uuid(2), addr(2), 10_000);
    sys.status.recalculate_hash();
    let known = sys.get_known_nodes(25_000);
    assert_eq!(known.len(), 1);
    assert_eq!(known[0].id, uuid(2));
    assert!(known[0].is_up);
    assert_eq!(known[0].last_seen_secs_ago, Some(15));
    assert_eq!(known[0].status.hostname, "?".to_owned());
    assert_eq!(known[0].status.replication_factor, 0);
    // Once the peer advertised, its status is served.
    sys.handle_advertise_status(&uuid(2), &status(3, 4, uuid(0xbb)), 26_000);
    let known2 = sys.get_known_nodes(27_000);
    assert_eq!(known2[0].status.hostname, "peer".to_owned());
    assert_eq!(known2[0].status.cluster_layout_version, 4);
}

#[test]
fn discovery_triggers_on_unconfigured_or_lonely_clusters() {
    let mut sys = fresh_system(2);
    // Empty layout fails its check: always trigger.
    assert!(sys.should_trigger_discovery(5, 5));
    sys.ring.layout.stage(&uuid(1), Some(role("z1", 1)));
    sys.ring.layout.stage(&uuid(2), Some(role("z2", 1)));
    sys.ring.layout.commit(1).unwrap();
    sys.ring.rebuild_ring();
    // Configured and fully peered: no trigger.
    assert!(!sys.should_trigger_discovery(2, 2));
    // Fewer connected peers than the replication factor.
    assert!(sys.should_trigger_discovery(1, 2));
    // Live-peer count differs from the assigned node count.
    assert!(sys.should_trigger_discovery(3, 1));
}

#[test]
fn ping_response_updates_table_and_requests_pulls() {
    let mut sys = fresh_system(1);
    let ping = garage_core::system::PingMessage {
        id: uuid(2),
        rpc_port: 3901,
        status_hash: uuid(0xcc),
        config_version: 3,
    };
    let e = sys.handle_ping_response(IpBytes::V4([10, 0, 0, 2]), &ping, 1_000);
    assert!(e.advertise);
    assert!(e.pull_status);
    assert!(e.pull_config);
    assert_eq!(sys.status.nodes.len(), 1);
    // Same peer, same address, matching hashes: nothing to do.
    let quiet = garage_core::system::PingMessage {
        id: uuid(2),
        rpc_port: 3901,
        status_hash: sys.status.hash,
        config_version: 0,
    };
    let e2 = sys.handle_ping_response(IpBytes::V4([10, 0, 0, 2]), &quiet, 2_000);
    assert!(!e2.advertise);
    assert!(!e2.pull_status);
    assert!(!e2.pull_config);
}

#[test]
fn advertised_nodes_teach_own_address_and_list_unknowns() {
    let mut sys = fresh_system(1);
    sys.status.handle_ping(&uuid(3), addr(3), 0);
    sys.status.recalculate_hash();
    let adv = vec![
        garage_core::peers::AdvertisedNode { id: uuid(1), addr: addr(77) },
        garage_core::peers::AdvertisedNode { id: uuid(3), addr: addr(3) },
        garage_core::peers::AdvertisedNode { id: uuid(4), addr: addr(4) },
    ];
    let to_ping = sys.handle_advertise_nodes_up(&adv, 3901, 5_000);
    // Only the unknown node that is not ourselves is worth pinging.
    assert_eq!(to_ping.len(), 1);
    assert_eq!(to_ping[0].id, uuid(4));
    // We learned our own reachable address, under our own RPC port.
    let me = sys.status.find(&uuid(1)).unwrap();
    assert_eq!(me.addr, NodeAddr { ip: IpBytes::V4([10, 0, 0, 77]), port: 3901 });
}

#[test]
fn broadcast_targets_exclude_self() {
    let mut sys = fresh_system(1);
    sys.status.handle_ping(&uuid(1), addr(1), 0);
    sys.status.handle_ping(&uuid(2), addr(2), 0);
    sys.status.handle_ping(&uuid(3), addr(3), 0);
    sys.status.recalculate_hash();
    let targets = sys.broadcast_targets();
    let ids: Vec<u8> = targets.iter().map(|u| u.b[0]).collect();
    assert_eq!(ids, vec![2, 3]);
}

#[test]
fn status_report_partitions_nodes() {
    let mut sys = fresh_system(1);
    sys.ring.layout.stage(&uuid(2), Some(role("z1", 1)));
    sys.ring.layout.stage(&uuid(5), Some(role("z2", 1)));
    sys.ring.layout.commit(1).unwrap();
    sys.ring.rebuild_ring();
    sys.status.handle_ping(&uuid(2), addr(2), 0);
    sys.status.handle_ping(&uuid(9), addr(9), 0);
    sys.status.recalculate_hash();
    let known = sys.get_known_nodes(0);
    let report = cluster_status_report(&known, &sys.ring.layout);
    assert_eq!(report.healthy.len(), 1);
    assert_eq!(report.healthy[0].id, uuid(2));
    assert_eq!(report.failed.len(), 1);
    assert_eq!(report.failed[0], uuid(5));
    assert_eq!(report.unconfigured.len(), 1);
    assert_eq!(report.unconfigured[0], uuid(9));
}

#[test]
fn select_node_needs_exactly_one_match() {
    let ids = vec![uuid(0x1a), uuid(0x1b), uuid(0x2c)];
    assert_eq!(select_node(&ids, b"1a").unwrap(), uuid(0x1a));
    assert_eq!(select_node(&ids, b"2c2c").unwrap(), uuid(0x2c));
    assert!(matches!(select_node(&ids, b"1"), Err(Error::BadRequest(_))));
    assert!(matches!(select_node(&ids, b"ff"), Err(Error::BadRequest(_))));
}

#[test]
fn revert_staged_checks_the_expected_version() {
    let mut l = ClusterLayout::new(1);
    l.stage(&uuid(4), Some(role("z", 1)));
    assert!(matches!(revert_staged(&mut l, 5), Err(Error::BadRequest(_))));
    assert_eq!(l.staging.len(), 1);
    revert_staged(&mut l, 1).unwrap();
    assert_eq!(l.staging.len(), 0);
}

#[test]
fn error_codes_match_their_kinds() {
    assert_eq!(Error::BadRequest("x".to_owned()).http_status_code(), 400);
    assert_eq!(Error::NotFound.http_status_code(), 404);
    assert_eq!(Error::Forbidden("x".to_owned()).http_status_code(), 403);
    assert_eq!(
        Error::Rpc(garage_core::error::RPCError::NodeDown(uuid(1))).http_status_code(),
        503
    );
    assert_eq!(Error::UnexpectedMessage.http_status_code(), 500);
    assert_eq!(Error::BadRequest("x".to_owned()).exit_code(), 1);
    assert_eq!(Error::Io("x".to_owned()).exit_code(), 2);
    assert_eq!(
        Error::Rpc(garage_core::error::RPCError::Timeout("t".to_owned())).exit_code(),
        3
    );
}

#[test]
fn status_hint_then_pull_adopts_the_newer_layout() {
    // A peer advertises a newer layout version; the hint asks for a
    // pull, and merging the pulled layout brings this node to that
    // version.
    let mut peer_layout = ClusterLayout::new(1);
    peer_layout.stage(&uuid(8), Some(role("z1", 1)));
    peer_layout.commit(1).unwrap();
    peer_layout.commit(2).unwrap();

    let mut sys = fresh_system(1);
    let hint = status(1, peer_layout.version, peer_layout.staging_hash);
    let act = sys.handle_advertise_status(&uuid(8), &hint, 100);
    assert_eq!(act, StatusAction::PullLayout);
    let changed = sys.handle_advertise_cluster_layout(&peer_layout).unwrap();
    assert!(changed);
    sys.update_local_status();
    assert_eq!(sys.local_status.cluster_layout_version, 2);
    // The next identical hint asks for nothing.
    let hint2 = status(1, sys.local_status.cluster_layout_version, sys.local_status.cluster_layout_staging_hash);
    assert_eq!(sys.handle_advertise_status(&uuid(8), &hint2, 200), StatusAction::NoAction);
}

#[test]
fn ping_carries_table_hash_and_layout_version() {
    let mut sys = fresh_system(1);
    let mut adv = ClusterLayout::new(1);
    adv.stage(&uuid(7), Some(role("z1", 1)));
    adv.commit(1).unwrap();
    sys.handle_advertise_cluster_layout(&adv).unwrap();
    let p = sys.make_ping(3901);
    assert_eq!(p.id, uuid(1));
    assert_eq!(p.rpc_port, 3901);
    assert_eq!(p.status_hash, sys.status.hash);
    assert_eq!(p.config_version, 1);
}

#[test]
fn key_material_lengths_are_checked() {
    assert!(garage_core::data::node_id_from_bytes(&vec![7u8; 32]).is_ok());
    assert!(matches!(
        garage_core::data::node_id_from_bytes(&vec![7u8; 31]),
        Err(Error::CorruptData(_))
    ));
    assert!(garage_core::data::check_node_key_len(&vec![0u8; 64]).is_ok());
    assert!(matches!(
        garage_core::data::check_node_key_len(&vec![0u8; 63]),
        Err(Error::CorruptData(_))
    ));
}

#[test]
fn rpc_dispatch_records_status_and_surfaces_pull() {
    let mut sys = fresh_system(3);
    let hash = sys.ring.layout.staging_hash;
    let (r, act) = sys.handle_rpc(
        &SystemRpc::AdvertiseStatus(status(3, 9, hash)),
        &uuid(2),
        1_000,
    );
    assert!(matches!(r, Ok(SystemRpc::Accepted)));
    assert_eq!(act, StatusAction::PullLayout);
    assert_eq!(sys.node_status.len(), 1);
    assert_eq!(sys.node_status[0].id, uuid(2));
    assert_eq!(sys.node_status[0].status.cluster_layout_version, 9);
}

#[test]
fn rpc_dispatch_accepts_valid_layouts_and_repeats() {
    let mut sys = fresh_system(1);
    let mut adv = ClusterLayout::new(1);
    adv.stage(&uuid(7), Some(role("z1", 2)));
    adv.commit(1).unwrap();
    let (r, _) = sys.handle_rpc(&SystemRpc::AdvertiseClusterLayout(adv.duplicate()), &uuid(2), 0);
    assert!(matches!(r, Ok(SystemRpc::Accepted)));
    assert_eq!(sys.ring.layout.version, 1);
    // Success is owed on a repeat of the same advertisement too.
    let (r2, _) = sys.handle_rpc(&SystemRpc::AdvertiseClusterLayout(adv), &uuid(2), 0);
    assert!(matches!(r2, Ok(SystemRpc::Accepted)));
    assert_eq!(sys.ring.layout.version, 1);
}

#[test]
fn advertisement_success_is_owed_when_nothing_rejects() {
    // A benign advertisement that changes nothing must still succeed.
    let mut sys = fresh_system(1);
    let r = sys.handle_advertise_cluster_layout(&ClusterLayout::new(1));
    assert_eq!(r.unwrap(), false);
    // Cross-advertisement converges both systems to equal layouts.
    let mut a = fresh_system(1);
    let mut b = fresh_system(1);
    a.ring.layout.stage(&uuid(1), Some(role("za", 1)));
    a.ring.layout.commit(1).unwrap();
    a.ring.rebuild_ring();
    b.ring.layout.stage(&uuid(2), Some(role("zb", 2)));
    b.ring.layout.commit(1).unwrap();
    b.ring.layout.commit(2).unwrap();
    b.ring.rebuild_ring();
    let la = a.handle_pull_cluster_layout();
    let lb = b.handle_pull_cluster_layout();
    assert!(a.handle_advertise_cluster_layout(&lb).is_ok());
    assert!(b.handle_advertise_cluster_layout(&la).is_ok());
    assert_eq!(a.ring.layout.version, b.ring.layout.version);
    assert_eq!(a.ring.layout.roles, b.ring.layout.roles);
    assert_eq!(a.ring.layout.staging, b.ring.layout.staging);
    assert_eq!(a.ring.layout.staging_hash, b.ring.layout.staging_hash);
    assert_eq!(a.ring.ring, b.ring.ring);
}
