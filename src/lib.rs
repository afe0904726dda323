//! Replication core of a partitioned append-only log: the on-disk batch
//! framing, the batch stream over a data file, segments and the replica log,
//! the leader's high-watermark rule, the follower's apply step and the peer
//! protocol framing.
use vstd::prelude::*;

pub mod actions;
pub mod batch;
pub mod codec;
pub mod follower;
pub mod hw;
pub mod leader;
pub mod service;
pub mod storage;

verus! {

/// Position of a record inside a partition.
pub type Offset = i64;

/// Byte sizes and file positions.
pub type Size = u32;

/// Identifier of a streaming processing unit.
pub type SpuId = i32;

} // verus!
