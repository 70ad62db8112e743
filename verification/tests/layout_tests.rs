//! Layout staging, commit, and merge behaviour.

use garage_core::admin::staged_role_changes;
use garage_core::codec::table_hash;
use garage_core::data::FixedBytes32;
use garage_core::error::Error;
use garage_core::layout::{ClusterLayout, NodeRole, RoleEntry};

fn uuid(n: u8) -> FixedBytes32 {
    FixedBytes32 { b: [n; 32] }
}

fn role(zone: &str, capacity: Option<u64>) -> NodeRole {
    NodeRole { zone: zone.as_bytes().to_vec(), capacity, tags: Vec::new() }
}

fn layout_with_roles(version: u64, rf: usize, roles: Vec<RoleEntry>) -> ClusterLayout {
    let staging: Vec<RoleEntry> = Vec::new();
    let staging_hash = table_hash(&staging);
    ClusterLayout {
        version,
        replication_factor: rf,
        update_counter: 0,
        roles,
        staging,
        staging_hash,
    }
}

#[test]
fn stage_and_commit_bumps_version_and_clears_staging() {
    let mut l = ClusterLayout::new(3);
    l.stage(&uuid(1), Some(role("z1", Some(100))));
    l.stage(&uuid(2), Some(role("z2", Some(100))));
    l.stage(&uuid(3), Some(role("z3", Some(100))));
    assert_eq!(l.staging.len(), 3);
    let r = l.commit(1);
    assert!(r.is_ok());
    assert_eq!(l.version, 1);
    assert_eq!(l.roles.len(), 3);
    // After a commit the staging area is empty and its hash is the hash
    // of the empty staging area.
    assert_eq!(l.staging.len(), 0);
    let empty: Vec<RoleEntry> = Vec::new();
    assert_eq!(l.staging_hash, table_hash(&empty));
    assert_eq!(l.staging_hash, ClusterLayout::new(3).staging_hash);
}

#[test]
fn commit_requires_expected_version() {
    let mut l = ClusterLayout::new(1);
    l.stage(&uuid(1), Some(role("z1", Some(1))));
    let r = l.commit(7);
    assert!(matches!(r, Err(Error::BadRequest(_))));
    assert_eq!(l.version, 0);
    assert_eq!(l.staging.len(), 1);
}

#[test]
fn commit_refused_when_zone_check_fails() {
    let mut l = ClusterLayout::new(3);
    l.stage(&uuid(1), Some(role("z1", Some(1))));
    // Only one role for a replication factor of three.
    let r = l.commit(1);
    assert!(matches!(r, Err(Error::Forbidden(_))));
    assert_eq!(l.version, 0);
    // An empty zone name is refused too.
    let mut l2 = ClusterLayout::new(1);
    l2.stage(&uuid(1), Some(role("", Some(1))));
    assert!(matches!(l2.commit(1), Err(Error::Forbidden(_))));
}

#[test]
fn staging_a_node_twice_keeps_the_later_edit() {
    let mut l = ClusterLayout::new(1);
    l.stage(&uuid(1), Some(role("za", Some(1))));
    l.stage(&uuid(1), Some(role("zb", Some(2))));
    assert_eq!(l.staging.len(), 1);
    assert_eq!(l.staging[0].role.as_ref().unwrap().zone, b"zb".to_vec());
    l.commit(1).unwrap();
    assert_eq!(l.roles[0].role.as_ref().unwrap().zone, b"zb".to_vec());
}

#[test]
fn revert_resets_staging_to_committed_roles() {
    let mut l = ClusterLayout::new(1);
    l.stage(&uuid(1), Some(role("z1", Some(1))));
    l.commit(1).unwrap();
    l.stage(&uuid(2), Some(role("z2", Some(1))));
    l.revert();
    assert_eq!(l.staging.len(), l.roles.len());
    assert_eq!(l.staging[0], l.roles[0]);
    assert_eq!(l.version, 1);
}

#[test]
fn merge_adopts_newer_version() {
    let a_roles = vec![RoleEntry { node: uuid(1), tag: 5, role: Some(role("za", Some(1))) }];
    let b_roles = vec![RoleEntry { node: uuid(2), tag: 6, role: Some(role("zb", Some(1))) }];
    let mut a = layout_with_roles(5, 1, a_roles);
    let b = layout_with_roles(6, 1, b_roles.clone());
    let changed = a.merge(&b);
    assert!(changed);
    assert_eq!(a.version, 6);
    assert_eq!(a.roles, b_roles);
}

#[test]
fn merge_at_equal_version_adopts_greater_roles_hash() {
    // The same node carries two different roles at the same layout
    // version; the table with the greater hash must win on both sides.
    let r1 = vec![RoleEntry { node: uuid(1), tag: 5, role: Some(role("za", Some(1))) }];
    let r2 = vec![RoleEntry { node: uuid(1), tag: 5, role: Some(role("zb", Some(2))) }];
    let la = layout_with_roles(5, 1, r1);
    let lb = layout_with_roles(5, 1, r2);
    let ha = table_hash(&la.roles).b;
    let hb = table_hash(&lb.roles).b;
    assert_ne!(ha, hb);
    let (mut lo, hi) = if ha < hb { (la, lb) } else { (lb, la) };
    let winner_roles = hi.roles.clone();
    let changed = lo.merge(&hi);
    assert!(changed);
    assert_eq!(lo.roles, winner_roles);
    assert_eq!(lo.version, 5);
    // Merging the same layout again is a no-op.
    let changed_again = lo.merge(&hi);
    assert!(!changed_again);
}

#[test]
fn merge_is_idempotent_and_commutative() {
    let mut a = ClusterLayout::new(1);
    a.stage(&uuid(1), Some(role("za", Some(1))));
    a.commit(1).unwrap();
    a.stage(&uuid(3), Some(role("zc", Some(1))));
    let mut b = ClusterLayout::new(1);
    b.stage(&uuid(2), Some(role("zb", Some(1))));
    b.commit(1).unwrap();
    b.commit(2).unwrap();
    b.stage(&uuid(4), Some(role("zd", Some(1))));

    let mut ab = a.duplicate();
    let first = ab.merge(&b);
    assert!(first);
    let second = ab.merge(&b);
    assert!(!second);

    let mut ba = b.duplicate();
    ba.merge(&a);
    assert_eq!(ab.version, ba.version);
    assert_eq!(ab.roles, ba.roles);
    assert_eq!(ab.staging, ba.staging);
    assert_eq!(ab.staging_hash, ba.staging_hash);
}

#[test]
fn merge_version_never_decreases() {
    let mut a = ClusterLayout::new(1);
    a.stage(&uuid(1), Some(role("za", Some(1))));
    a.commit(1).unwrap();
    a.commit(2).unwrap();
    a.commit(3).unwrap();
    let b = ClusterLayout::new(1);
    let v_before = a.version;
    a.merge(&b);
    assert!(a.version >= v_before);
    assert!(a.version >= b.version);
    assert_eq!(a.version, 3);
}

#[test]
fn merge_staging_takes_union_with_higher_tag_winning() {
    let mut a = ClusterLayout::new(1);
    a.stage(&uuid(1), Some(role("za", Some(1))));
    let mut b = ClusterLayout::new(1);
    b.stage(&uuid(1), Some(role("zb", Some(2))));
    b.stage(&uuid(2), Some(role("zc", Some(3))));
    // b staged uuid(1) under tag 1 and uuid(2) under tag 2; a staged
    // uuid(1) under tag 1 as well: the tie falls to the greater
    // canonical role encoding, deterministically on both sides.
    let mut ab = a.duplicate();
    ab.merge(&b);
    let mut ba = b.duplicate();
    ba.merge(&a);
    assert_eq!(ab.staging, ba.staging);
    assert_eq!(ab.staging.len(), 2);
}

#[test]
fn from_parts_refuses_unsorted_tables() {
    let roles = vec![
        RoleEntry { node: uuid(2), tag: 1, role: Some(role("za", Some(1))) },
        RoleEntry { node: uuid(1), tag: 1, role: Some(role("zb", Some(1))) },
    ];
    let r = ClusterLayout::from_parts(1, 1, 0, roles, Vec::new());
    assert!(matches!(r, Err(Error::CorruptData(_))));
    let sorted = vec![
        RoleEntry { node: uuid(1), tag: 1, role: Some(role("za", Some(1))) },
        RoleEntry { node: uuid(2), tag: 1, role: Some(role("zb", Some(1))) },
    ];
    let l = ClusterLayout::from_parts(1, 1, 0, sorted, Vec::new()).unwrap();
    assert_eq!(l.version, 1);
    assert_eq!(l.staging_hash, table_hash(&l.staging));
}

#[test]
fn staged_changes_show_only_the_differences() {
    let mut l = ClusterLayout::new(1);
    l.stage(&uuid(1), Some(role("z1", Some(1))));
    l.commit(1).unwrap();
    // Re-staging the committed role is not a pending change; a new
    // node and a removal are.
    l.stage(&uuid(1), Some(role("z1", Some(1))));
    l.stage(&uuid(2), Some(role("z2", Some(1))));
    let changes = staged_role_changes(&l);
    assert_eq!(changes.len(), 1);
    assert_eq!(changes[0].node, uuid(2));
    l.stage(&uuid(1), None);
    let changes2 = staged_role_changes(&l);
    assert_eq!(changes2.len(), 2);
}
