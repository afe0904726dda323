//! State of a follower replica: it applies the batches that the leader
//! streams and reports its offsets back.
use vstd::prelude::*;

use crate::batch::{Batch, BatchHeader, BATCH_HEADER_SIZE};
use crate::leader::batch_headers;
use crate::storage::{assigned_header, batch_records, AppendError, ReplicaLog};
use crate::{Offset, SpuId};

verus! {

/// The headers that a follower at `leo` appends from `bs`, in order: a batch
/// behind `leo` is dropped, one at `leo` is appended; none where a batch lies
/// ahead of the log (a gap).
pub open spec fn follow(leo: int, bs: Seq<Batch>) -> Option<Seq<BatchHeader>>
    decreases bs.len(),
{
    if bs.len() == 0 {
        Some(seq![])
    } else if bs[0].header.base_offset < leo {
        follow(leo, bs.drop_first())
    } else if bs[0].header.base_offset > leo {
        None
    } else {
        match follow(leo + bs[0].header.last_offset_delta + 1, bs.drop_first()) {
            Some(rest) => Some(
                seq![assigned_header(bs[0].header, leo, bs[0].records@.len())] + rest,
            ),
            None => None,
        }
    }
}

/// The record bytes that a follower at `leo` appends from `bs`, in order,
/// up to a gap.
pub open spec fn follow_records(leo: int, bs: Seq<Batch>) -> Seq<Seq<u8>>
    decreases bs.len(),
{
    if bs.len() == 0 {
        seq![]
    } else if bs[0].header.base_offset < leo {
        follow_records(leo, bs.drop_first())
    } else if bs[0].header.base_offset > leo {
        seq![]
    } else {
        seq![bs[0].records@] + follow_records(
            leo + bs[0].header.last_offset_delta + 1,
            bs.drop_first(),
        )
    }
}

/// Batches as a leader's log holds them from `leo` on: each starts where
/// the one before ends and its length covers header and records.
pub open spec fn leader_chain(leo: int, bs: Seq<Batch>) -> bool
    decreases bs.len(),
{
    bs.len() == 0 || {
        &&& bs[0].header.base_offset == leo
        &&& bs[0].header.batch_len == BATCH_HEADER_SIZE + bs[0].records@.len()
        &&& bs[0].header.last_offset_delta >= 0
        &&& leader_chain(leo + bs[0].header.last_offset_delta + 1, bs.drop_first())
    }
}

/// A follower at `leo` that receives the leader's batches from `leo` on
/// appends each of them with the very header the leader has: same base
/// offset, same fields.
pub proof fn lemma_replicated_identical(leo: int, bs: Seq<Batch>)
    requires
        leader_chain(leo, bs),
    ensures
        follow(leo, bs) == Some(batch_headers(bs)),
        follow_records(leo, bs) == batch_records(bs),
    decreases bs.len(),
{
    if bs.len() > 0 {
        lemma_replicated_identical(leo + bs[0].header.last_offset_delta + 1, bs.drop_first());
        assert(assigned_header(bs[0].header, leo, bs[0].records@.len()) == bs[0].header);
        assert(batch_headers(bs) =~= seq![bs[0].header] + batch_headers(bs.drop_first()));
        assert(batch_records(bs) =~= seq![bs[0].records@] + batch_records(bs.drop_first()));
    } else {
        assert(batch_headers(bs) =~= Seq::<BatchHeader>::empty());
        assert(batch_records(bs) =~= Seq::<Seq<u8>>::empty());
    }
}

/// What a follower does after applying what the leader sent.
#[derive(Debug, Clone, Copy, PartialEq, Eq, Structural)]
pub enum FollowerSync {
    /// send these offsets to the leader
    Report { leo: Offset, hw: Offset },
    /// a batch lies ahead of the log: drop the connection and start again
    Reconnect,
    /// the log refused a batch
    StorageFailure(AppendError),
}

/// The follower's view of one partition replica.
pub struct FollowerReplicaState {
    leader: SpuId,
    log: ReplicaLog,
}

impl FollowerReplicaState {
    pub closed spec fn leader_id(&self) -> SpuId {
        self.leader
    }

    pub closed spec fn replica_log(&self) -> ReplicaLog {
        self.log
    }

    pub open spec fn leo_spec(&self) -> int {
        self.replica_log().leo_spec()
    }

    pub open spec fn hw_spec(&self) -> int {
        self.replica_log().hw_spec()
    }

    pub open spec fn wf(&self) -> bool {
        self.replica_log().wf()
    }

    pub fn new(leader: SpuId, log: ReplicaLog) -> (r: FollowerReplicaState)
        requires
            log.wf(),
        ensures
            r.wf(),
            r.leader_id() == leader,
            r.replica_log() == log,
    {
        FollowerReplicaState { leader, log }
    }

    pub fn leader(&self) -> (r: SpuId)
        ensures
            r == self.leader_id(),
    {
        self.leader
    }

    pub fn leo(&self) -> (r: Offset)
        requires
            self.wf(),
        ensures
            r == self.leo_spec(),
    {
        self.log.leo()
    }

    pub fn hw(&self) -> (r: Offset)
        ensures
            r == self.hw_spec(),
    {
        self.log.hw()
    }

    pub fn get_log(&self) -> (r: &ReplicaLog)
        ensures
            *r == self.replica_log(),
    {
        &self.log
    }

    /// Applies the batches that the leader sent, then takes the high
    /// watermark to `min(leader_hw, LEO)` where that raises it.
    pub fn apply_batches(&mut self, batches: &Vec<Batch>, leader_hw: Offset) -> (r: FollowerSync)
        requires
            old(self).wf(),
        ensures
            final(self).wf(),
            final(self).leader_id() == old(self).leader_id(),
            old(self).hw_spec() <= final(self).hw_spec() <= final(self).leo_spec(),
            old(self).leo_spec() <= final(self).leo_spec(),
            r matches FollowerSync::Report { leo, hw } ==> {
                &&& follow(old(self).leo_spec(), batches@) is Some
                &&& final(self).replica_log().log_headers() == old(self).replica_log().log_headers()
                    + follow(old(self).leo_spec(), batches@)->0
                &&& final(self).replica_log().log_records() == old(self).replica_log().log_records()
                    + follow_records(old(self).leo_spec(), batches@)
                &&& leo == final(self).leo_spec()
                &&& hw == final(self).hw_spec()
                &&& hw == (if old(self).hw_spec() <= leader_hw && leader_hw <= leo {
                    leader_hw as int
                } else if old(self).hw_spec() <= leo && leo < leader_hw {
                    leo as int
                } else {
                    old(self).hw_spec()
                })
            },
            r == FollowerSync::Reconnect ==> follow(old(self).leo_spec(), batches@) is None,
            r matches FollowerSync::StorageFailure(e) ==> exists|k: int|
                0 <= k < batches@.len() && final(self).replica_log().refusal(#[trigger] batches@[k])
                    == Some(e) && batches@[k].header.base_offset == final(self).leo_spec(),
            follow(old(self).leo_spec(), batches@) is None ==> !(r is Report),
    {
        let n = batches.len();
        let mut i: usize = 0;
        let ghost acc: Seq<BatchHeader> = seq![];
        let ghost accr: Seq<Seq<u8>> = seq![];
        proof {
            assert(batches@.subrange(0, n as int) =~= batches@);
            assert(self.replica_log().log_headers() =~= old(self).replica_log().log_headers() + acc);
            assert(self.replica_log().log_records() =~= old(self).replica_log().log_records() + accr);
            assert(accr + follow_records(old(self).leo_spec(), batches@) =~= follow_records(
                old(self).leo_spec(),
                batches@,
            ));
            match follow(old(self).leo_spec(), batches@) {
                Some(rest) => {
                    assert(acc + rest =~= rest);
                },
                None => {},
            }
        }
        while i < n
            invariant
                n == batches@.len(),
                i <= n,
                self.wf(),
                self.leader_id() == old(self).leader_id(),
                self.hw_spec() == old(self).hw_spec(),
                old(self).leo_spec() <= self.leo_spec(),
                self.replica_log().log_headers() == old(self).replica_log().log_headers() + acc,
                self.replica_log().log_records() == old(self).replica_log().log_records() + accr,
                follow_records(old(self).leo_spec(), batches@) == accr + follow_records(
                    self.leo_spec(),
                    batches@.subrange(i as int, n as int),
                ),
                follow(old(self).leo_spec(), batches@) == match follow(
                    self.leo_spec(),
                    batches@.subrange(i as int, n as int),
                ) {
                    Some(rest) => Some(acc + rest),
                    None => None::<Seq<BatchHeader>>,
                },
            decreases n - i,
        {
            let b = &batches[i];
            let leo = self.log.leo();
            let ghost tail = batches@.subrange(i as int, n as int);
            assert(tail.drop_first() =~= batches@.subrange(i + 1, n as int));
            assert(tail[0] == *b);
            if b.header.base_offset > leo {
                return FollowerSync::Reconnect;
            }
            if b.header.base_offset == leo {
                match self.log.append(b) {
                    Ok(_) => {
                        proof {
                            let h = assigned_header(b.header, leo as int, b.records@.len());
                            assert(acc.push(h) =~= acc + seq![h]);
                            match follow(self.leo_spec(), batches@.subrange(i + 1, n as int)) {
                                Some(rest) => {
                                    assert(acc + (seq![h] + rest) =~= acc.push(h) + rest);
                                },
                                None => {},
                            }
                            acc = acc.push(h);
                            assert(accr + (seq![b.records@] + follow_records(
                                self.leo_spec(),
                                batches@.subrange(i + 1, n as int),
                            )) =~= accr.push(b.records@) + follow_records(
                                self.leo_spec(),
                                batches@.subrange(i + 1, n as int),
                            ));
                            accr = accr.push(b.records@);
                        }
                    },
                    Err(e) => {
                        assert(self.replica_log().refusal(batches@[i as int]) == Some(e));
                        return FollowerSync::StorageFailure(e);
                    },
                }
            }
            i = i + 1;
        }
        proof {
            assert(batches@.subrange(n as int, n as int) =~= Seq::<Batch>::empty());
            assert(acc + Seq::<BatchHeader>::empty() =~= acc);
            assert(accr + Seq::<Seq<u8>>::empty() =~= accr);
        }
        let leo = self.log.leo();
        let target = if leader_hw < leo {
            leader_hw
        } else {
            leo
        };
        let _ = self.log.update_hw(target);
        FollowerSync::Report { leo, hw: self.log.hw() }
    }
}

} // verus!
