//! Cluster membership and consistent-hash routing core of a distributed
//! object store.
//!
//! The crate maintains a versioned cluster layout (operator-assigned roles
//! with staged edits), derives from it a sorted token ring that maps any
//! content hash to an ordered list of replica nodes under a zone-diversity
//! rule, and keeps a table of known peers with liveness tracking. All state
//! transitions are pure functions over plain data; disk and network edges
//! live outside the crate and hand values in and out.

pub mod admin;
pub mod cli;
pub mod codec;
pub mod data;
pub mod digest;
pub mod error;
pub mod hexcode;
pub mod layout;
pub mod peers;
pub mod persist;
pub mod ring;
pub mod signature;
pub mod system;
pub mod version_table;

use vstd::prelude::*;

verus! {

/// Number of consecutive failed pings after which a peer is marked down.
pub const MAX_FAILED_PINGS: u64 = 3;

} // verus!
