//! State of a leader replica: its log, the offsets known of each follower,
//! and the high watermark that follows from them.
use vstd::prelude::*;

use crate::actions::{FollowerOffsetUpdate, LeaderReplicaControllerCommand, Replica};
use crate::batch::{total_len_of, Batch, BatchHeader, RecordsMode};
use crate::hw::{committed_hw, compute_hw};
use crate::storage::{assigned_seq, batch_records, offsets_taken, AppendError, ReplicaLog};
use crate::{Offset, SpuId};

verus! {

/// Last offsets reported by a follower.
#[derive(Debug, Clone, Copy, PartialEq, Eq, Structural)]
pub struct OffsetInfo {
    pub leo: Offset,
    pub hw: Offset,
}

/// One follower of the replica, and what is known of its offsets.
#[derive(Debug, Clone, Copy, PartialEq, Eq, Structural)]
pub struct FollowerEntry {
    pub id: SpuId,
    pub offsets: Option<OffsetInfo>,
}

/// Ids of the followers of a table.
pub open spec fn ids_of(t: Seq<FollowerEntry>) -> Seq<SpuId> {
    t.map_values(|e: FollowerEntry| e.id)
}

/// Log end offsets known of the followers of a table, in table order.
pub open spec fn known_leos(t: Seq<FollowerEntry>) -> Seq<i64>
    decreases t.len(),
{
    if t.len() == 0 {
        seq![]
    } else {
        match t.last().offsets {
            Some(o) => known_leos(t.drop_last()).push(o.leo),
            None => known_leos(t.drop_last()),
        }
    }
}

/// Headers of a sequence of batches.
pub open spec fn batch_headers(v: Seq<Batch>) -> Seq<BatchHeader> {
    v.map_values(|b: Batch| b.header)
}

/// The headers of `hs` whose base offset is at least `offset`, in order.
pub open spec fn headers_from(hs: Seq<BatchHeader>, offset: int) -> Seq<BatchHeader>
    decreases hs.len(),
{
    if hs.len() == 0 {
        seq![]
    } else if hs.last().base_offset >= offset {
        headers_from(hs.drop_last(), offset).push(hs.last())
    } else {
        headers_from(hs.drop_last(), offset)
    }
}

/// The record bytes `rs` of the batches `hs` whose base offset is at least
/// `offset`, in order.
pub open spec fn records_from(hs: Seq<BatchHeader>, rs: Seq<Seq<u8>>, offset: int) -> Seq<Seq<u8>>
    decreases hs.len(),
{
    if hs.len() == 0 || rs.len() == 0 {
        seq![]
    } else if hs.last().base_offset >= offset {
        records_from(hs.drop_last(), rs.drop_last(), offset).push(rs.last())
    } else {
        records_from(hs.drop_last(), rs.drop_last(), offset)
    }
}

/// Position of follower `id` in the table.
pub fn find_follower(t: &Vec<FollowerEntry>, id: SpuId) -> (r: Option<usize>)
    ensures
        r matches Some(i) ==> i < t@.len() && t@[i as int].id == id,
        r is None <==> !ids_of(t@).contains(id),
{
    let mut i: usize = 0;
    while i < t.len()
        invariant
            i <= t@.len(),
            forall|j: int| 0 <= j < i ==> t@[j].id != id,
        decreases t@.len() - i,
    {
        if t[i].id == id {
            assert(ids_of(t@)[i as int] == id);
            return Some(i);
        }
        i = i + 1;
    }
    proof {
        if ids_of(t@).contains(id) {
            let j = choose|j: int| 0 <= j < ids_of(t@).len() && ids_of(t@)[j] == id;
            assert(t@[j].id == id);
        }
    }
    None
}

/// The log end offsets known of the followers of `t`.
pub fn collect_known_leos(t: &Vec<FollowerEntry>) -> (r: Vec<Offset>)
    ensures
        r@ == known_leos(t@),
{
    let mut r: Vec<Offset> = Vec::new();
    let mut i: usize = 0;
    while i < t.len()
        invariant
            i <= t@.len(),
            r@ == known_leos(t@.subrange(0, i as int)),
        decreases t@.len() - i,
    {
        assert(t@.subrange(0, i + 1).drop_last() =~= t@.subrange(0, i as int));
        match t[i].offsets {
            Some(o) => r.push(o.leo),
            None => {},
        }
        i = i + 1;
    }
    assert(t@.subrange(0, i as int) =~= t@);
    r
}

/// The followers of a replica assignment: its members but the leader, each once.
pub open spec fn follower_ids_ok(ids: Seq<SpuId>, replicas: Seq<SpuId>, leader: SpuId) -> bool {
    &&& ids.no_duplicates()
    &&& forall|id: SpuId| ids.contains(id) <==> (replicas.contains(id) && id != leader)
}

/// The leader's view of one partition replica.
pub struct LeaderReplicaState {
    leader: SpuId,
    min_in_sync_replicas: u16,
    log: ReplicaLog,
    followers: Vec<FollowerEntry>,
}

impl LeaderReplicaState {
    pub closed spec fn leader_id(&self) -> SpuId {
        self.leader
    }

    pub closed spec fn min_isr(&self) -> u16 {
        self.min_in_sync_replicas
    }

    pub closed spec fn replica_log(&self) -> ReplicaLog {
        self.log
    }

    pub closed spec fn table(&self) -> Seq<FollowerEntry> {
        self.followers@
    }

    pub open spec fn leo_spec(&self) -> int {
        self.replica_log().leo_spec()
    }

    pub open spec fn hw_spec(&self) -> int {
        self.replica_log().hw_spec()
    }

    /// The high watermark that the committed-offset rule gives from `prev`.
    pub open spec fn rule_hw(&self, prev: int) -> int {
        committed_hw(
            seq![self.leo_spec() as i64] + known_leos(self.table()),
            self.min_isr() as nat,
            self.leo_spec(),
            prev,
        )
    }

    pub open spec fn wf(&self) -> bool {
        &&& self.replica_log().wf()
        &&& ids_of(self.table()).no_duplicates()
        &&& !ids_of(self.table()).contains(self.leader_id())
    }

    /// A leader for `replica` over `log`; no follower offsets are known yet.
    pub fn new(replica: &Replica, min_in_sync_replicas: u16, log: ReplicaLog) -> (r:
        LeaderReplicaState)
        requires
            log.wf(),
        ensures
            r.wf(),
            r.leader_id() == replica.leader,
            r.min_isr() == min_in_sync_replicas,
            r.replica_log() == log,
            follower_ids_ok(ids_of(r.table()), replica.replicas@, replica.leader),
            forall|i: int| 0 <= i < r.table().len() ==> (#[trigger] r.table()[i]).offsets is None,
    {
        let followers = Self::reconcile(&Vec::new(), replica);
        LeaderReplicaState { leader: replica.leader, min_in_sync_replicas, log, followers }
    }

    /// The table for the members of `replica`: each follower keeps what was
    /// known of it in `old`, a new one starts unknown.
    fn reconcile(old: &Vec<FollowerEntry>, replica: &Replica) -> (r: Vec<FollowerEntry>)
        ensures
            follower_ids_ok(ids_of(r@), replica.replicas@, replica.leader),
            forall|i: int|
                0 <= i < r@.len() ==> {
                    let e = #[trigger] r@[i];
                    (ids_of(old@).contains(e.id) ==> exists|j: int|
                        0 <= j < old@.len() && old@[j] == e) && (!ids_of(old@).contains(e.id)
                        ==> e.offsets is None)
                },
    {
        let mut r: Vec<FollowerEntry> = Vec::new();
        let mut i: usize = 0;
        while i < replica.replicas.len()
            invariant
                i <= replica.replicas@.len(),
                ids_of(r@).no_duplicates(),
                forall|id: SpuId|
                    ids_of(r@).contains(id) <==> (replica.replicas@.subrange(0, i as int).contains(id)
                        && id != replica.leader),
                forall|k: int|
                    0 <= k < r@.len() ==> {
                        let e = #[trigger] r@[k];
                        (ids_of(old@).contains(e.id) ==> exists|j: int|
                            0 <= j < old@.len() && old@[j] == e) && (!ids_of(old@).contains(e.id)
                            ==> e.offsets is None)
                    },
            decreases replica.replicas@.len() - i,
        {
            let id = replica.replicas[i];
            let ghost prev = r@;
            let ghost sub = replica.replicas@.subrange(0, i as int);
            let ghost sub1 = replica.replicas@.subrange(0, i + 1);
            assert(sub1 =~= sub.push(id));
            let fresh = id != replica.leader && find_follower(&r, id).is_none();
            if fresh {
                let entry = match find_follower(old, id) {
                    Some(j) => old[j],
                    None => FollowerEntry { id, offsets: None },
                };
                r.push(entry);
                assert(ids_of(r@) =~= ids_of(prev).push(id));
            }
            proof {
                assert forall|x: SpuId| sub1.contains(x) <==> (sub.contains(x) || x == id) by {
                    if sub1.contains(x) {
                        let k = choose|k: int| 0 <= k < sub1.len() && sub1[k] == x;
                        if k < sub.len() {
                            assert(sub[k] == x);
                        }
                    }
                    if sub.contains(x) {
                        let k = choose|k: int| 0 <= k < sub.len() && sub[k] == x;
                        assert(sub1[k] == x);
                    }
                    if x == id {
                        assert(sub1[sub.len() as int] == x);
                    }
                }
                if fresh {
                    assert forall|x: SpuId| ids_of(prev).push(id).contains(x) <==> (ids_of(
                        prev,
                    ).contains(x) || x == id) by {
                        let grown_ids = ids_of(prev).push(id);
                        if grown_ids.contains(x) {
                            let k = choose|k: int| 0 <= k < grown_ids.len() && grown_ids[k] == x;
                            if k < prev.len() {
                                assert(ids_of(prev)[k] == x);
                            }
                        }
                        if ids_of(prev).contains(x) {
                            let k = choose|k: int| 0 <= k < ids_of(prev).len() && ids_of(prev)[k] == x;
                            assert(grown_ids[k] == x);
                        }
                        if x == id {
                            assert(grown_ids[prev.len() as int] == x);
                        }
                    }
                } else {
                    assert(r@ == prev);
                    assert(id == replica.leader || ids_of(prev).contains(id));
                }
                assert forall|x: SpuId| ids_of(r@).contains(x) <==> (sub1.contains(x) && x
                    != replica.leader) by {
                    assert(ids_of(prev).contains(x) <==> (sub.contains(x) && x != replica.leader));
                }
            }
            i = i + 1;
        }
        assert(replica.replicas@.subrange(0, i as int) =~= replica.replicas@);
        r
    }

    pub fn leo(&self) -> (r: Offset)
        requires
            self.wf(),
        ensures
            r == self.leo_spec(),
    {
        self.log.leo()
    }

    pub fn hw(&self) -> (r: Offset)
        ensures
            r == self.hw_spec(),
    {
        self.log.hw()
    }

    pub fn get_log(&self) -> (r: &ReplicaLog)
        ensures
            *r == self.replica_log(),
    {
        &self.log
    }

    pub fn followers(&self) -> (r: &Vec<FollowerEntry>)
        ensures
            r@ == self.table(),
    {
        &self.followers
    }

    /// Applies the committed-offset rule to the high watermark.
    fn recompute_hw(&mut self)
        requires
            old(self).wf(),
        ensures
            final(self).wf(),
            final(self).hw_spec() == old(self).rule_hw(old(self).hw_spec()),
            final(self).leo_spec() == old(self).leo_spec(),
            final(self).table() == old(self).table(),
            final(self).leader_id() == old(self).leader_id(),
            final(self).min_isr() == old(self).min_isr(),
            final(self).replica_log().log_headers() == old(self).replica_log().log_headers(),
            final(self).replica_log().segs() == old(self).replica_log().segs(),
    {
        let leos = collect_known_leos(&self.followers);
        let leo = self.log.leo();
        let new_hw = compute_hw(leo, &leos, self.min_in_sync_replicas, self.log.hw());
        let _ = self.log.update_hw(new_hw);
    }

    /// Appends a producer's batches, then recomputes the high watermark.
    pub fn write_record_set(&mut self, batches: &Vec<Batch>) -> (r: Result<Offset, AppendError>)
        requires
            old(self).wf(),
        ensures
            final(self).wf(),
            final(self).table() == old(self).table(),
            final(self).hw_spec() == final(self).rule_hw(old(self).hw_spec()),
            old(self).hw_spec() <= final(self).hw_spec() <= final(self).leo_spec(),
            final(self).leader_id() == old(self).leader_id(),
            final(self).min_isr() == old(self).min_isr(),
            r matches Ok(leo) ==> leo == old(self).leo_spec() + offsets_taken(batches@)
                && final(self).leo_spec() == leo && final(self).replica_log().log_headers() == old(
                self,
            ).replica_log().log_headers() + assigned_seq(old(self).leo_spec(), batches@)
                && final(self).replica_log().log_records() == old(self).replica_log().log_records()
                + batch_records(batches@),
            r matches Err(e) ==> exists|k: int|
                0 <= k < batches@.len() && final(self).replica_log().refusal(
                    #[trigger] batches@[k],
                ) == Some(e) && final(self).leo_spec() == old(self).leo_spec() + offsets_taken(
                    batches@.subrange(0, k),
                ) && final(self).replica_log().log_headers() == old(self).replica_log().log_headers()
                    + assigned_seq(old(self).leo_spec(), batches@.subrange(0, k)),
    {
        let r = self.log.append_batches(batches);
        self.recompute_hw();
        r
    }

    /// Records a follower's offsets and recomputes the high watermark.
    /// Refused, with nothing changed, where the follower is not a member or
    /// reports a high watermark above its end offset.
    pub fn update_follower_offsets(&mut self, update: &FollowerOffsetUpdate) -> (r: bool)
        requires
            old(self).wf(),
        ensures
            final(self).wf(),
            r == (ids_of(old(self).table()).contains(update.follower_id) && update.hw <= update.leo),
            !r ==> *final(self) == *old(self),
            r ==> exists|i: int|
                0 <= i < old(self).table().len() && old(self).table()[i].id == update.follower_id
                    && final(self).table() == old(self).table().update(
                    i,
                    FollowerEntry {
                        id: update.follower_id,
                        offsets: Some(OffsetInfo { leo: update.leo, hw: update.hw }),
                    },
                ),
            r ==> final(self).hw_spec() == final(self).rule_hw(old(self).hw_spec()),
            final(self).leo_spec() == old(self).leo_spec(),
            final(self).min_isr() == old(self).min_isr(),
            final(self).leader_id() == old(self).leader_id(),
            final(self).replica_log().log_headers() == old(self).replica_log().log_headers(),
            final(self).replica_log().segs() == old(self).replica_log().segs(),
            old(self).hw_spec() <= final(self).hw_spec() <= final(self).leo_spec(),
    {
        if update.hw > update.leo {
            return false;
        }
        match find_follower(&self.followers, update.follower_id) {
            None => false,
            Some(i) => {
                let ghost before = self.followers@;
                self.followers.set(
                    i,
                    FollowerEntry {
                        id: update.follower_id,
                        offsets: Some(OffsetInfo { leo: update.leo, hw: update.hw }),
                    },
                );
                assert(ids_of(self.followers@) =~= ids_of(before));
                self.recompute_hw();
                true
            },
        }
    }

    /// Takes on a new membership from the control plane: followers that left
    /// are dropped, new ones start unknown, and the high watermark is
    /// recomputed.
    pub fn update_replica(&mut self, replica: &Replica) -> (r: ())
        requires
            old(self).wf(),
            replica.leader == old(self).leader_id(),
        ensures
            final(self).wf(),
            follower_ids_ok(ids_of(final(self).table()), replica.replicas@, replica.leader),
            forall|i: int|
                0 <= i < final(self).table().len() ==> {
                    let e = #[trigger] final(self).table()[i];
                    (ids_of(old(self).table()).contains(e.id) ==> exists|j: int|
                        0 <= j < old(self).table().len() && old(self).table()[j] == e) && (!ids_of(
                        old(self).table(),
                    ).contains(e.id) ==> e.offsets is None)
                },
            final(self).hw_spec() == final(self).rule_hw(old(self).hw_spec()),
            final(self).leo_spec() == old(self).leo_spec(),
            final(self).min_isr() == old(self).min_isr(),
            final(self).leader_id() == old(self).leader_id(),
            final(self).replica_log().log_headers() == old(self).replica_log().log_headers(),
            old(self).hw_spec() <= final(self).hw_spec() <= final(self).leo_spec(),
    {
        self.followers = Self::reconcile(&self.followers, replica);
        self.recompute_hw();
    }

    /// Handles a command of the control plane. Returns whether this replica
    /// goes on leading: not once it is removed, nor where the new assignment
    /// names another leader.
    pub fn handle_command(&mut self, command: &LeaderReplicaControllerCommand) -> (r: bool)
        requires
            old(self).wf(),
        ensures
            final(self).wf(),
            r == (command matches LeaderReplicaControllerCommand::UpdateReplicaFromSc(replica) && (
            replica.leader == old(self).leader_id())),
            r ==> (command matches LeaderReplicaControllerCommand::UpdateReplicaFromSc(replica)
                && follower_ids_ok(ids_of(final(self).table()), replica.replicas@, replica.leader)
                && final(self).hw_spec() == final(self).rule_hw(old(self).hw_spec())),
            !r ==> *final(self) == *old(self),
            final(self).leo_spec() == old(self).leo_spec(),
            old(self).hw_spec() <= final(self).hw_spec() <= final(self).leo_spec(),
    {
        match command {
            LeaderReplicaControllerCommand::UpdateReplicaFromSc(replica) => {
                if replica.leader != self.leader {
                    return false;
                }
                self.update_replica(replica);
                true
            },
            LeaderReplicaControllerCommand::RemoveReplicaFromSc => false,
        }
    }

    /// The followers that may lack batches: those whose end offset is unknown
    /// or behind the log's.
    pub fn followers_behind(&self) -> (r: Vec<SpuId>)
        requires
            self.wf(),
        ensures
            forall|id: SpuId|
                r@.contains(id) <==> exists|i: int|
                    0 <= i < self.table().len() && (#[trigger] self.table()[i]).id == id && match self.table()[i].offsets {
                        Some(o) => o.leo < self.leo_spec(),
                        None => true,
                    },
    {
        let leo = self.log.leo();
        let mut r: Vec<SpuId> = Vec::new();
        let mut i: usize = 0;
        while i < self.followers.len()
            invariant
                i <= self.table().len(),
                leo == self.leo_spec(),
                forall|id: SpuId|
                    r@.contains(id) <==> exists|k: int|
                        0 <= k < i && (#[trigger] self.table()[k]).id == id && match self.table()[k].offsets {
                            Some(o) => o.leo < self.leo_spec(),
                            None => true,
                        },
            decreases self.table().len() - i,
        {
            let e = self.followers[i];
            let behind = match e.offsets {
                Some(o) => o.leo < leo,
                None => true,
            };
            let ghost prev = r@;
            if behind {
                r.push(e.id);
            }
            proof {
                assert forall|id: SpuId|
                    r@.contains(id) <==> exists|k: int|
                        0 <= k < i + 1 && (#[trigger] self.table()[k]).id == id && match self.table()[k].offsets {
                            Some(o) => o.leo < self.leo_spec(),
                            None => true,
                        } by {
                    if r@.contains(id) && !prev.contains(id) {
                        let k = choose|k: int| 0 <= k < r@.len() && r@[k] == id;
                        assert(k == prev.len());
                        assert(self.table()[i as int].id == id);
                    }
                    if prev.contains(id) {
                        let k = choose|k: int| 0 <= k < prev.len() && prev[k] == id;
                        assert(r@[k] == id);
                    }
                    if behind {
                        assert(r@[r@.len() - 1] == e.id);
                    }
                }
            }
            i = i + 1;
        }
        r
    }

    /// The batches of the log whose base offset is at least `offset`, with
    /// their records, in log order: what a follower at `offset` lacks.
    pub fn batches_from(&self, offset: Offset) -> (r: Vec<Batch>)
        requires
            self.wf(),
        ensures
            batch_headers(r@) == headers_from(self.replica_log().log_headers(), offset as int),
            batch_records(r@) == records_from(
                self.replica_log().log_headers(),
                self.replica_log().log_records(),
                offset as int,
            ),
    {
        let mut all = self.log.read_all_batches(RecordsMode::Full);
        let ghost hs = crate::batch::headers_of(all@);
        let mut r: Vec<Batch> = Vec::new();
        let mut i: usize = 0;
        let n = all.len();
        let ghost all0 = all@;
        while i < n
            invariant
                n == all0.len(),
                i <= n,
                all@.len() == n - i,
                all@ == all0.subrange(i as int, n as int),
                batch_headers(r@) == headers_from(crate::batch::headers_of(all0.subrange(0, i as int)), offset as int),
                batch_records(r@) == records_from(
                    crate::batch::headers_of(all0.subrange(0, i as int)),
                    crate::batch::records_of(all0.subrange(0, i as int)),
                    offset as int,
                ),
            decreases n - i,
        {
            let fb = all.remove(0);
            assert(fb == all0[i as int]);
            let b = fb.into_batch();
            let ghost prev = r@;
            let ghost sub1 = crate::batch::headers_of(all0.subrange(0, i + 1));
            assert(sub1.drop_last() =~= crate::batch::headers_of(all0.subrange(0, i as int)));
            let ghost rs1 = crate::batch::records_of(all0.subrange(0, i + 1));
            assert(rs1.drop_last() =~= crate::batch::records_of(all0.subrange(0, i as int)));
            assert(rs1.last() == b.records@);
            if b.header.base_offset >= offset {
                r.push(b);
                assert(batch_headers(r@) =~= batch_headers(prev).push(b.header));
                assert(batch_records(r@) =~= batch_records(prev).push(b.records@));
            }
            i = i + 1;
        }
        assert(all0.subrange(0, i as int) =~= all0);
        r
    }
}

/// The batches of `hs` taken in order while their total size stays within
/// `max` bytes.
pub open spec fn within_bytes(hs: Seq<BatchHeader>, max: int) -> Seq<BatchHeader>
    decreases hs.len(),
{
    if hs.len() == 0 || total_len_of(hs[0]) > max {
        seq![]
    } else {
        seq![hs[0]] + within_bytes(hs.drop_first(), max - total_len_of(hs[0]))
    }
}

/// What one fetch carries of `hs` for a limit of `max` bytes: the first batch
/// always, so that a follower makes progress, then as many as fit.
pub open spec fn fetch_window(hs: Seq<BatchHeader>, max: int) -> Seq<BatchHeader> {
    if hs.len() == 0 {
        seq![]
    } else {
        seq![hs[0]] + within_bytes(hs.drop_first(), max - total_len_of(hs[0]))
    }
}

/// Keeps of `batches` what one fetch of at most `max_bytes` carries.
pub fn limit_batches(batches: Vec<Batch>, max_bytes: u32) -> (r: Vec<Batch>)
    ensures
        batch_headers(r@) == fetch_window(batch_headers(batches@), max_bytes as int),
        r@ == batches@.subrange(0, r@.len() as int),
{
    let ghost all = batches@;
    let ghost hs = batch_headers(all);
    let n = batches.len();
    let mut rest = batches;
    let mut out: Vec<Batch> = Vec::new();
    if n == 0 {
        assert(hs =~= Seq::<BatchHeader>::empty());
        return out;
    }
    let first = rest.remove(0);
    let mut room: i128 = max_bytes as i128 - 12 - first.header.batch_len as i128;
    out.push(first);
    let mut i: usize = 1;
    proof {
        assert(out@ =~= all.subrange(0, 1));
        assert(batch_headers(out@) =~= seq![hs[0]]);
        assert(hs.subrange(1, n as int) =~= hs.drop_first());
        assert(fetch_window(hs, max_bytes as int) =~= batch_headers(out@) + within_bytes(
            hs.subrange(1, n as int),
            room as int,
        ));
    }
    while i < n
        invariant
            n == all.len(),
            all == batches@,
            1 <= i <= n,
            hs == batch_headers(all),
            rest@ == all.subrange(i as int, n as int),
            out@ == all.subrange(0, i as int),
            room <= (i as int + 1) * 0x1_0000_0000,
            room >= -0x1_0000_0000,
            fetch_window(hs, max_bytes as int) == batch_headers(out@) + within_bytes(
                hs.subrange(i as int, n as int),
                room as int,
            ),
        decreases n - i,
    {
        let b = rest.remove(0);
        assert(b == all[i as int]);
        let ghost tail = hs.subrange(i as int, n as int);
        assert(tail[0] == b.header);
        assert(tail.drop_first() =~= hs.subrange(i + 1, n as int));
        let size: i128 = 12 + b.header.batch_len as i128;
        assert(tail.len() == n - i);
        assert(total_len_of(tail[0]) == size);
        if size > room {
            assert(within_bytes(tail, room as int) =~= Seq::<BatchHeader>::empty());
            assert(fetch_window(hs, max_bytes as int) == batch_headers(out@));
            assert(batch_headers(out@) + Seq::<BatchHeader>::empty() =~= batch_headers(out@));
            return out;
        }
        let ghost prev = out@;
        out.push(b);
        assert(out@ =~= all.subrange(0, i + 1));
        room = room - size;
        proof {
            assert(batch_headers(out@) =~= batch_headers(prev).push(b.header));
            assert(batch_headers(prev) + (seq![b.header] + within_bytes(tail.drop_first(), room as int))
                =~= batch_headers(out@) + within_bytes(hs.subrange(i + 1, n as int), room as int));
        }
        i = i + 1;
    }
    assert(hs.subrange(i as int, n as int) =~= Seq::<BatchHeader>::empty());
    assert(batch_headers(out@) + Seq::<BatchHeader>::empty() =~= batch_headers(out@));
    out
}

/// The end offset of what a push of `hs` covers: after its last batch, or
/// `sent` where it has none; the leader's end offset where the last batch's
/// end does not fit an offset.
pub open spec fn push_end(sent: int, hs: Seq<BatchHeader>, leader_leo: int) -> int {
    if hs.len() == 0 {
        sent
    } else if hs.last().last_offset_delta >= 0 && hs.last().base_offset + hs.last().last_offset_delta
        < i64::MAX {
        hs.last().base_offset + hs.last().last_offset_delta + 1
    } else {
        leader_leo
    }
}

/// What a follower handler sends on its connection.
#[derive(Debug)]
pub struct PeerPush {
    pub batches: Vec<Batch>,
    pub hw: Offset,
    /// end offset of the batches pushed
    pub leo: Offset,
}

/// The leader's side of one follower's connection: what it has sent so far.
#[derive(Debug, Clone, Copy, PartialEq, Eq, Structural)]
pub struct FollowerHandler {
    pub follower_id: SpuId,
    /// end offset of what was sent
    pub sent_leo: Offset,
    /// high watermark last sent
    pub sent_hw: Offset,
}

impl FollowerHandler {
    /// A handler for a follower that reported `leo` and `hw` on registration.
    pub fn new(follower_id: SpuId, leo: Offset, hw: Offset) -> (r: FollowerHandler)
        ensures
            r == (FollowerHandler { follower_id, sent_leo: leo, sent_hw: hw }),
    {
        FollowerHandler { follower_id, sent_leo: leo, sent_hw: hw }
    }

    /// What to send when woken: the batches from what was sent on, as many
    /// as one fetch of `max_bytes` carries, with the high watermark; none
    /// where the follower has all batches and the current watermark.
    pub fn next_push(&self, leader: &LeaderReplicaState, max_bytes: u32) -> (r: Option<PeerPush>)
        requires
            leader.wf(),
        ensures
            r is None <==> (self.sent_leo >= leader.leo_spec() && self.sent_hw >= leader.hw_spec()),
            r matches Some(p) ==> {
                &&& batch_headers(p.batches@) == fetch_window(
                    headers_from(leader.replica_log().log_headers(), self.sent_leo as int),
                    max_bytes as int,
                )
                &&& p.hw == leader.hw_spec()
                &&& p.leo == push_end(self.sent_leo as int, batch_headers(p.batches@), leader.leo_spec())
            },
    {
        let leo = leader.leo();
        let hw = leader.hw();
        if self.sent_leo >= leo && self.sent_hw >= hw {
            return None;
        }
        let batches = limit_batches(leader.batches_from(self.sent_leo), max_bytes);
        let n = batches.len();
        let end = if n == 0 {
            self.sent_leo
        } else {
            let last = batches[n - 1].header;
            assert(batch_headers(batches@).last() == last);
            if last.last_offset_delta >= 0 && last.base_offset < i64::MAX - last.last_offset_delta as i64 {
                last.base_offset + last.last_offset_delta as i64 + 1
            } else {
                leo
            }
        };
        Some(PeerPush { batches, hw, leo: end })
    }

    /// Records that `push` was written to the socket.
    pub fn mark_sent(&mut self, push: &PeerPush)
        ensures
            *final(self) == (FollowerHandler {
                follower_id: old(self).follower_id,
                sent_leo: push.leo,
                sent_hw: push.hw,
            }),
    {
        self.sent_leo = push.leo;
        self.sent_hw = push.hw;
    }
}

} // verus!
