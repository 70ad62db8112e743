//! Version merging and the block-reference update rule.

use garage_core::data::FixedBytes32;
use garage_core::version_table::{Version, VersionBlock, VersionTable};

fn uuid(n: u8) -> FixedBytes32 {
    FixedBytes32 { b: [n; 32] }
}

fn block(offset: u64, h: u8) -> VersionBlock {
    VersionBlock { offset, hash: uuid(h) }
}

fn version(n: u8, deleted: bool, blocks: Vec<VersionBlock>) -> Version {
    Version {
        uuid: uuid(n),
        deleted,
        blocks,
        bucket: "bucket".to_owned(),
        key: "key".to_owned(),
    }
}

#[test]
fn merge_unions_blocks_by_offset() {
    let mut a = version(1, false, vec![block(0, 10), block(200, 11)]);
    let b = version(1, false, vec![block(100, 12), block(200, 99)]);
    a.merge(&b);
    let offsets: Vec<u64> = a.blocks.iter().map(|b| b.offset).collect();
    assert_eq!(offsets, vec![0, 100, 200]);
    // At the shared offset the own block survives.
    assert_eq!(a.blocks[2].hash, uuid(11));
}

#[test]
fn merge_deletion_wins_and_clears_blocks() {
    let mut a = version(1, false, vec![block(0, 10)]);
    let b = version(1, true, Vec::new());
    a.merge(&b);
    assert!(a.deleted);
    assert_eq!(a.blocks.len(), 0);
    // A deleted version ignores later block lists.
    let c = version(1, false, vec![block(5, 5)]);
    a.merge(&c);
    assert!(a.deleted);
    assert_eq!(a.blocks.len(), 0);
}

#[test]
fn partition_key_is_the_version_identity() {
    let v = version(7, false, Vec::new());
    assert_eq!(*v.partition_key(), uuid(7));
}

#[test]
fn deletion_update_emits_block_dereferences() {
    let old_v = version(3, false, vec![block(0, 20), block(64, 21)]);
    let new_v = version(3, true, Vec::new());
    let refs = VersionTable::updated(&Some(old_v), &Some(new_v));
    assert_eq!(refs.len(), 2);
    assert_eq!(refs[0].block, uuid(20));
    assert_eq!(refs[0].version, uuid(3));
    assert!(refs[0].deleted);
    assert_eq!(refs[1].block, uuid(21));
    // No transition, no dereferences.
    let same_old = version(3, false, vec![block(0, 20)]);
    let same_new = version(3, false, vec![block(0, 20)]);
    assert_eq!(VersionTable::updated(&Some(same_old), &Some(same_new)).len(), 0);
    assert_eq!(VersionTable::updated(&None, &None).len(), 0);
}

#[test]
fn filter_drops_deleted_versions() {
    assert!(VersionTable::matches_filter(&version(1, false, Vec::new())));
    assert!(!VersionTable::matches_filter(&version(1, true, Vec::new())));
}
