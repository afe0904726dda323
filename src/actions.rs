//! Messages handed to a leader replica's controller.
use vstd::prelude::*;

use crate::{Offset, SpuId};

verus! {

/// Assignment of one partition replica: its leader and all its members.
#[derive(Debug)]
pub struct Replica {
    pub topic: String,
    pub partition: i32,
    pub leader: SpuId,
    pub replicas: Vec<SpuId>,
}

impl Replica {
    pub fn new(topic: String, partition: i32, leader: SpuId, replicas: Vec<SpuId>) -> (r: Replica)
        ensures
            r.topic@ == topic@,
            r.partition == partition,
            r.leader == leader,
            r.replicas@ == replicas@,
    {
        Replica { topic, partition, leader, replicas }
    }
}

/// What the control plane tells a leader replica's controller.
#[derive(Debug)]
pub enum LeaderReplicaControllerCommand {
    UpdateReplicaFromSc(Replica),
    RemoveReplicaFromSc,
}

/// Progress reported by a follower: its log end offset and high watermark.
#[derive(Debug, Clone, Copy, PartialEq, Eq, Structural)]
pub struct FollowerOffsetUpdate {
    pub follower_id: SpuId,
    /// log end offset
    pub leo: Offset,
    /// high watermark
    pub hw: Offset,
}

impl FollowerOffsetUpdate {
    /// An update; a high watermark is never above the end offset.
    pub fn new(follower_id: SpuId, leo: Offset, hw: Offset) -> (r: FollowerOffsetUpdate)
        requires
            hw <= leo,
        ensures
            r == (FollowerOffsetUpdate { follower_id, leo, hw }),
    {
        FollowerOffsetUpdate { follower_id, leo, hw }
    }
}

impl From<(SpuId, Offset, Offset)> for FollowerOffsetUpdate {
    fn from(value: (SpuId, Offset, Offset)) -> (r: FollowerOffsetUpdate) {
        FollowerOffsetUpdate { follower_id: value.0, leo: value.1, hw: value.2 }
    }
}

impl vstd::std_specs::convert::FromSpecImpl<(SpuId, Offset, Offset)> for FollowerOffsetUpdate {
    open spec fn obeys_from_spec() -> bool {
        true
    }

    open spec fn from_spec(value: (SpuId, Offset, Offset)) -> FollowerOffsetUpdate {
        FollowerOffsetUpdate { follower_id: value.0, leo: value.1, hw: value.2 }
    }
}

} // verus!
