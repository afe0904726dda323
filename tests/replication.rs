use flv_spu::actions::{FollowerOffsetUpdate, LeaderReplicaControllerCommand, Replica};
use flv_spu::batch::{
    decode_header, encode_header, Batch, BatchError, BatchHeader, FileBatchPos, FileBatchStream,
    RecordsMode, BATCH_FILE_HEADER_SIZE,
};
use flv_spu::codec::{read_int, read_uint, write_int, write_uint};
use flv_spu::follower::{FollowerReplicaState, FollowerSync};
use flv_spu::hw::{compute_hw, count_at_least, rth_largest};
use flv_spu::leader::{limit_batches, FollowerHandler, LeaderReplicaState};
use flv_spu::service::{
    decode_file_topic, decode_frame, decode_offset_update, encode_file_topic, decode_spu_id, encode_frame, encode_offset_update,
    encode_spu_id, ConnectionAction, ConnectionEvent,
    ConnectionState, FetchStreamRequest, FollowerConnection, FrameError, InternalService,
    SpuPeerApi,
};
use flv_spu::storage::{AppendError, LogConfig, ReplicaLog, Segment};

fn header(producer_id: i64, last_offset_delta: i32) -> BatchHeader {
    BatchHeader {
        base_offset: 0,
        batch_len: 0,
        partition_leader_epoch: -1,
        magic: 2,
        crc: 0xdead_beef,
        attributes: 0,
        last_offset_delta,
        first_timestamp: 1_600_000_000_000,
        max_time_stamp: 1_600_000_000_500,
        producer_id,
        producer_epoch: -1,
        first_sequence: -1,
    }
}

fn create_batch_with_producer(producer_id: i64, records: i32) -> Batch {
    Batch {
        header: header(producer_id, records - 1),
        records: vec![7u8; 10 * records as usize],
    }
}

fn create_batch() -> Batch {
    create_batch_with_producer(12, 2)
}

fn new_log(base: i64, segment_max_bytes: u32) -> ReplicaLog {
    ReplicaLog::new(
        base,
        LogConfig {
            segment_max_bytes,
            index_max_bytes: 1000,
            index_interval_bytes: 100,
        },
    )
}

fn replica(leader: i32, followers: &[i32]) -> Replica {
    let mut members = vec![leader];
    members.extend_from_slice(followers);
    Replica::new("test".to_string(), 0, leader, members)
}

fn file_of(log: &ReplicaLog) -> Vec<u8> {
    let mut data = Vec::new();
    for b in log.read_all_batches(RecordsMode::Full) {
        let mut h = Vec::new();
        encode_header(&b.get_batch().header, &mut h);
        data.extend_from_slice(&h);
        data.extend_from_slice(&b.get_batch().records);
    }
    data
}

#[test]
fn int_codec_round_trip() {
    let mut out = Vec::new();
    write_uint(&mut out, 0x0102_0304, 4);
    assert_eq!(out, vec![1, 2, 3, 4]);
    assert_eq!(read_uint(&out, 0, 4), 0x0102_0304);
    assert_eq!(read_uint(&out, 1, 2), 0x0203);
    let mut neg = Vec::new();
    write_int(&mut neg, -2, 2);
    assert_eq!(neg, vec![0xff, 0xfe]);
    assert_eq!(read_int(&neg, 0, 2), -2);
    let mut big = Vec::new();
    write_int(&mut big, i64::MIN, 8);
    assert_eq!(big, vec![0x80, 0, 0, 0, 0, 0, 0, 0]);
    assert_eq!(read_int(&big, 0, 8), i64::MIN);
}

#[test]
fn header_round_trip() {
    let mut h = header(25, 3);
    h.base_offset = 300;
    h.batch_len = 45;
    let mut bytes = vec![9u8];
    encode_header(&h, &mut bytes);
    assert_eq!(bytes.len(), 1 + BATCH_FILE_HEADER_SIZE);
    assert_eq!(&bytes[1..9], &[0, 0, 0, 0, 0, 0, 1, 44]);
    assert_eq!(decode_header(&bytes, 1), h);
}

#[test]
fn test_batch_stream_single() {
    let mut segment = Segment::new(300);
    segment.append_batch(&create_batch(), 0);
    let mut batch_stream = segment.open_batch_stream(RecordsMode::Full);
    let batch1 = batch_stream.next().expect("batch");
    let batch = batch1.get_batch();
    assert_eq!(batch.get_base_offset(), 300);
    assert_eq!(batch.get_header().producer_id, 12);
    assert_eq!(batch1.get_last_offset(), 301);
    assert_eq!(batch1.get_pos(), 0);
    assert_eq!(batch1.len(), 45 + 20);
    assert_eq!(batch1.total_len(), 12 + 45 + 20);
    assert_eq!(batch.records, vec![7u8; 20]);
    assert!(batch_stream.next().is_none());
    assert_eq!(batch_stream.invalid(), None);
}

#[test]
fn test_batch_stream_multiple() {
    let mut segment = Segment::new(300);
    segment.append_batch(&create_batch(), 0);
    segment.append_batch(&create_batch_with_producer(25, 2), 0);
    let mut batch_stream = segment.open_batch_stream(RecordsMode::HeaderOnly);
    let batch1 = batch_stream.next().expect("batch");
    assert_eq!(batch1.get_last_offset(), 301);
    assert!(batch1.get_batch().records.is_empty());
    assert_eq!(batch1.records_remainder_bytes(20), 0);
    let batch2 = batch_stream.next().expect("batch");
    assert_eq!(batch2.get_last_offset(), 303);
    assert_eq!(batch2.get_pos(), 77);
    assert_eq!(batch2.get_batch().get_header().producer_id, 25);
}

#[test]
fn empty_file_yields_nothing() {
    let mut stream = FileBatchStream::new(Vec::new(), RecordsMode::Full);
    assert!(stream.next().is_none());
    assert_eq!(stream.invalid(), None);
}

#[test]
fn stream_from_position() {
    let mut segment = Segment::new(0);
    segment.append_batch(&create_batch(), 0);
    segment.append_batch(&create_batch_with_producer(25, 2), 0);
    let data = segment.open_batch_stream(RecordsMode::Full).read_all();
    assert_eq!(data.len(), 2);
    let mut log = new_log(0, 100_000);
    log.append(&create_batch()).unwrap();
    log.append(&create_batch_with_producer(25, 2)).unwrap();
    let bytes = file_of(&log);
    let mut stream = FileBatchStream::new_with_pos(bytes.clone(), 77, RecordsMode::Full)
        .ok()
        .expect("stream");
    let b = stream.next().expect("second batch");
    assert_eq!(b.get_base_offset(), 2);
    assert!(FileBatchStream::new_with_pos(bytes.clone(), bytes.len() as u32 + 1, RecordsMode::Full)
        .is_err());
}

#[test]
fn truncated_tail_is_not_yielded() {
    let mut log = new_log(0, 100_000);
    for _ in 0..3 {
        log.append(&create_batch()).unwrap();
    }
    let mut bytes = file_of(&log);
    bytes.truncate(bytes.len() - 3);
    let mut stream = FileBatchStream::new(bytes, RecordsMode::Full);
    let got = stream.read_all();
    assert_eq!(got.len(), 2);
    assert_eq!(got[0].get_base_offset(), 0);
    assert_eq!(got[1].get_base_offset(), 2);
    assert!(stream.next().is_none());
    assert_eq!(stream.invalid(), Some(BatchError::UnexpectedEof));
}

#[test]
fn truncated_header_is_unexpected_eof() {
    let mut log = new_log(0, 100_000);
    log.append(&create_batch()).unwrap();
    let mut bytes = file_of(&log);
    bytes.truncate(20);
    let r = FileBatchPos::from(&bytes, 0, RecordsMode::HeaderOnly);
    assert_eq!(r.err(), Some(BatchError::UnexpectedEof));
}

#[test]
fn bad_length_is_decode_error() {
    let mut h = header(1, 0);
    h.batch_len = 10;
    let mut bytes = Vec::new();
    encode_header(&h, &mut bytes);
    let mut stream = FileBatchStream::new(bytes, RecordsMode::Full);
    assert!(stream.next().is_none());
    assert_eq!(stream.invalid(), Some(BatchError::Decode));
}

#[test]
fn leo_is_sum_of_batch_sizes() {
    let mut log = new_log(5, 100_000);
    let batches = vec![
        create_batch_with_producer(1, 1),
        create_batch_with_producer(1, 3),
        create_batch_with_producer(1, 2),
    ];
    assert_eq!(log.append_batches(&batches), Ok(5 + 1 + 3 + 2));
    assert_eq!(log.leo(), 11);
    let read = log.read_all_batches(RecordsMode::HeaderOnly);
    let bases: Vec<i64> = read.iter().map(|b| b.get_base_offset()).collect();
    assert_eq!(bases, vec![5, 6, 9]);
}

#[test]
fn append_errors() {
    let mut log = new_log(0, 100_000);
    let mut bad = create_batch();
    bad.header.last_offset_delta = -1;
    assert_eq!(log.append(&bad), Err(AppendError::InvalidBatch));
    let mut far = new_log(i64::MAX - 1, 100_000);
    assert_eq!(far.append(&create_batch()), Err(AppendError::OffsetOverflow));
    assert_eq!(log.leo(), 0);
}

#[test]
fn segment_roll_keeps_order() {
    let mut log = new_log(0, 150);
    for _ in 0..5 {
        log.append(&create_batch()).unwrap();
    }
    assert_eq!(log.segment_count(), 3);
    let read = log.read_all_batches(RecordsMode::Full);
    let bases: Vec<i64> = read.iter().map(|b| b.get_base_offset()).collect();
    assert_eq!(bases, vec![0, 2, 4, 6, 8]);
    assert_eq!(log.leo(), 10);
}

#[test]
fn hw_update_is_monotonic() {
    let mut log = new_log(0, 100_000);
    log.append(&create_batch()).unwrap();
    assert!(log.update_hw(1));
    assert!(!log.update_hw(0));
    assert!(!log.update_hw(3));
    assert!(log.update_hw(2));
    assert_eq!(log.hw(), 2);
}

#[test]
fn rth_largest_values() {
    assert_eq!(count_at_least(&vec![5, 2, 9, 2], 2), 4);
    assert_eq!(rth_largest(&vec![5, 2, 9, 2], 1), Some(9));
    assert_eq!(rth_largest(&vec![5, 2, 9, 2], 2), Some(5));
    assert_eq!(rth_largest(&vec![5, 2, 9, 2], 3), Some(2));
    assert_eq!(rth_largest(&vec![5, 2, 9, 2], 4), Some(2));
    assert_eq!(rth_largest(&vec![5, 2, 9, 2], 5), None);
    assert_eq!(rth_largest(&vec![], 0), None);
}

#[test]
fn hw_rule_clips() {
    // second largest of {10, 7, 3} is 7
    assert_eq!(compute_hw(10, &vec![7, 3], 2, 0), 7);
    // never below the current one
    assert_eq!(compute_hw(10, &vec![7, 3], 3, 4), 4);
    // never above the leader's end offset
    assert_eq!(compute_hw(10, &vec![12, 11], 2, 0), 10);
    // too few replicas known
    assert_eq!(compute_hw(10, &vec![10], 3, 1), 1);
}

#[test]
fn follower_offset_update() {
    let u = FollowerOffsetUpdate::new(5002, 10, 4);
    assert_eq!(u.leo, 10);
    assert_eq!(FollowerOffsetUpdate::from((5002, 10, 4)), u);
    let cmd = LeaderReplicaControllerCommand::RemoveReplicaFromSc;
    assert!(matches!(cmd, LeaderReplicaControllerCommand::RemoveReplicaFromSc));
}

#[test]
fn leader_rejects_bad_updates() {
    let mut leader = LeaderReplicaState::new(&replica(5001, &[5002]), 2, new_log(0, 100_000));
    leader.write_record_set(&vec![create_batch()]).unwrap();
    assert!(!leader.update_follower_offsets(&FollowerOffsetUpdate { follower_id: 7, leo: 2, hw: 0 }));
    assert!(!leader.update_follower_offsets(&FollowerOffsetUpdate { follower_id: 5002, leo: 1, hw: 2 }));
    assert_eq!(leader.hw(), 0);
    assert!(leader.update_follower_offsets(&FollowerOffsetUpdate::new(5002, 2, 0)));
    assert_eq!(leader.hw(), 2);
    // a follower whose end offset regresses does not pull the watermark back
    assert!(leader.update_follower_offsets(&FollowerOffsetUpdate::new(5002, 0, 0)));
    assert_eq!(leader.hw(), 2);
}

/// One round of the fetch stream: the leader sends what the follower lacks
/// with its watermark, the follower applies and reports back.
fn sync_round(leader: &mut LeaderReplicaState, id: i32, follower: &mut FollowerReplicaState) {
    let batches = leader.batches_from(follower.leo());
    match follower.apply_batches(&batches, leader.hw()) {
        FollowerSync::Report { leo, hw } => {
            assert!(leader.update_follower_offsets(&FollowerOffsetUpdate::new(id, leo, hw)));
        }
        other => panic!("unexpected {:?}", other),
    }
}

#[test]
fn replication2_existing() {
    let mut leader = LeaderReplicaState::new(&replica(5001, &[5002]), 2, new_log(0, 100_000));
    leader.write_record_set(&vec![create_batch()]).unwrap();
    assert_eq!(leader.leo(), 2);
    assert_eq!(leader.hw(), 0);
    let mut follower = FollowerReplicaState::new(5001, new_log(0, 100_000));
    assert_eq!(follower.leo(), 0);
    assert_eq!(follower.hw(), 0);
    sync_round(&mut leader, 5002, &mut follower);
    assert_eq!(follower.leo(), 2);
    assert_eq!(leader.hw(), 2);
    sync_round(&mut leader, 5002, &mut follower);
    assert_eq!(follower.hw(), 2);
    assert_eq!(leader.hw(), 2);
}

#[test]
fn replication2_new_records() {
    let mut leader = LeaderReplicaState::new(&replica(5001, &[5002]), 2, new_log(0, 100_000));
    let mut follower = FollowerReplicaState::new(5001, new_log(0, 100_000));
    sync_round(&mut leader, 5002, &mut follower);
    assert_eq!(follower.leo(), 0);
    leader.write_record_set(&vec![create_batch()]).unwrap();
    assert_eq!(leader.leo(), 2);
    assert_eq!(leader.hw(), 0);
    assert_eq!(leader.followers_behind(), vec![5002]);
    sync_round(&mut leader, 5002, &mut follower);
    sync_round(&mut leader, 5002, &mut follower);
    assert_eq!((follower.leo(), follower.hw()), (2, 2));
    assert_eq!((leader.leo(), leader.hw()), (2, 2));
    assert!(leader.followers_behind().is_empty());
}

#[test]
fn replication3_existing() {
    let mut leader =
        LeaderReplicaState::new(&replica(5001, &[5002, 5003]), 3, new_log(0, 100_000));
    leader.write_record_set(&vec![create_batch()]).unwrap();
    let mut f1 = FollowerReplicaState::new(5001, new_log(0, 100_000));
    sync_round(&mut leader, 5002, &mut f1);
    sync_round(&mut leader, 5002, &mut f1);
    assert_eq!(f1.leo(), 2);
    assert_eq!(f1.hw(), 0);
    assert_eq!(leader.hw(), 0);
    let mut f2 = FollowerReplicaState::new(5001, new_log(0, 100_000));
    assert_eq!((f2.leo(), f2.hw()), (0, 0));
    sync_round(&mut leader, 5003, &mut f2);
    assert_eq!(leader.hw(), 2);
    sync_round(&mut leader, 5003, &mut f2);
    sync_round(&mut leader, 5002, &mut f1);
    assert_eq!((f2.leo(), f1.leo()), (2, 2));
    assert_eq!(f2.hw(), 2);
    assert_eq!(f1.hw(), 2);
}

#[test]
fn follower_reconnect_has_no_duplicates() {
    let mut leader = LeaderReplicaState::new(&replica(5001, &[5002]), 2, new_log(0, 100_000));
    leader.write_record_set(&vec![create_batch()]).unwrap();
    let mut follower = FollowerReplicaState::new(5001, new_log(0, 100_000));
    sync_round(&mut leader, 5002, &mut follower);
    // connection lost; the leader keeps writing
    leader.write_record_set(&vec![create_batch_with_producer(3, 3)]).unwrap();
    // on reconnect the leader resends from the start: old batches are dropped
    let all = leader.batches_from(0);
    let r = follower.apply_batches(&all, leader.hw());
    assert_eq!(r, FollowerSync::Report { leo: 5, hw: 2 });
    let bases: Vec<i64> = follower
        .get_log()
        .read_all_batches(RecordsMode::HeaderOnly)
        .iter()
        .map(|b| b.get_base_offset())
        .collect();
    assert_eq!(bases, vec![0, 2]);
}

#[test]
fn follower_gap_reconnects() {
    let mut follower = FollowerReplicaState::new(5001, new_log(0, 100_000));
    let mut b = create_batch();
    b.header.base_offset = 4;
    assert_eq!(follower.apply_batches(&vec![b], 0), FollowerSync::Reconnect);
    assert_eq!(follower.leo(), 0);
}

#[test]
fn membership_update() {
    let mut leader = LeaderReplicaState::new(&replica(5001, &[5002]), 2, new_log(0, 100_000));
    assert!(leader.update_follower_offsets(&FollowerOffsetUpdate::new(5002, 0, 0)));
    leader.update_replica(&replica(5001, &[5002, 5003, 5003]));
    let ids: Vec<i32> = leader.followers().iter().map(|e| e.id).collect();
    assert_eq!(ids, vec![5002, 5003]);
    assert!(leader.followers()[0].offsets.is_some());
    assert!(leader.followers()[1].offsets.is_none());
    leader.update_replica(&replica(5001, &[5003]));
    assert_eq!(leader.followers().len(), 1);
}

#[test]
fn frames_round_trip() {
    let payload = encode_spu_id(5002);
    assert_eq!(payload, vec![0, 0, 0x13, 0x8a]);
    let bytes = encode_frame(SpuPeerApi::FetchStream, 0, 42, &payload);
    assert_eq!(&bytes[0..4], &[0, 0, 0, 12]);
    let frame = decode_frame(&bytes).ok().expect("frame");
    assert_eq!(frame.api, SpuPeerApi::FetchStream);
    assert_eq!(frame.header.correlation_id, 42);
    assert_eq!(decode_spu_id(&frame.payload), Some(5002));
    let mut unknown = bytes.clone();
    unknown[5] = 9;
    assert_eq!(decode_frame(&unknown).err(), Some(FrameError::UnknownApi));
    assert_eq!(decode_frame(&bytes[0..13].to_vec()).err(), Some(FrameError::Incomplete));
    let mut short = bytes.clone();
    short[3] = 2;
    assert_eq!(decode_frame(&short).err(), Some(FrameError::Malformed));
}

#[test]
fn registration() {
    let service = InternalService::new();
    let known = vec![5002, 5003];
    let ok = service.register_follower(&FetchStreamRequest { spu_id: 5003 }, &known);
    assert_eq!(ok.map(|r| r.follower_id), Some(5003));
    assert!(service.register_follower(&FetchStreamRequest { spu_id: 9 }, &known).is_none());
}

#[test]
fn connection_backoff() {
    let mut c = FollowerConnection::new();
    assert_eq!(c.on_event(ConnectionEvent::ConnectFailed), ConnectionAction::Wait(100));
    assert_eq!(c.on_event(ConnectionEvent::BackoffElapsed), ConnectionAction::Connect);
    assert_eq!(c.on_event(ConnectionEvent::ConnectFailed), ConnectionAction::Wait(200));
    for _ in 0..10 {
        c.on_event(ConnectionEvent::BackoffElapsed);
        c.on_event(ConnectionEvent::ConnectFailed);
    }
    assert_eq!(c.delay_ms, 10000);
    c.on_event(ConnectionEvent::BackoffElapsed);
    assert_eq!(c.on_event(ConnectionEvent::Connected), ConnectionAction::Register);
    assert_eq!(c.on_event(ConnectionEvent::Acked), ConnectionAction::Stream);
    assert_eq!(c.state, ConnectionState::Streaming);
    assert_eq!(c.delay_ms, 100);
    assert_eq!(c.on_event(ConnectionEvent::Acked), ConnectionAction::Ignore);
}

#[test]
fn offset_position_lookup() {
    let mut segment = Segment::new(300);
    segment.append_batch(&create_batch(), 0);
    segment.append_batch(&create_batch_with_producer(25, 3), 0);
    assert_eq!(segment.get_end_offset(), 305);
    assert_eq!(segment.find_offset_position(299), None);
    assert_eq!(segment.find_offset_position(300), Some(0));
    assert_eq!(segment.find_offset_position(301), Some(0));
    assert_eq!(segment.find_offset_position(302), Some(77));
    assert_eq!(segment.find_offset_position(304), Some(77));
    assert_eq!(segment.find_offset_position(305), None);
}

#[test]
fn handler_pushes_batches_then_watermark() {
    let mut leader = LeaderReplicaState::new(&replica(5001, &[5002]), 2, new_log(0, 100_000));
    let mut handler = FollowerHandler::new(5002, 0, 0);
    assert!(handler.next_push(&leader, 100_000).is_none());
    leader.write_record_set(&vec![create_batch()]).unwrap();
    let push = handler.next_push(&leader, 100_000).expect("batches to push");
    assert_eq!(push.batches.len(), 1);
    assert_eq!((push.leo, push.hw), (2, 0));
    handler.mark_sent(&push);
    assert!(handler.next_push(&leader, 100_000).is_none());
    assert!(leader.update_follower_offsets(&FollowerOffsetUpdate::new(5002, 2, 0)));
    let push = handler.next_push(&leader, 100_000).expect("watermark to push");
    assert!(push.batches.is_empty());
    assert_eq!(push.hw, 2);
}

#[test]
fn sparse_index_entries() {
    let mut segment = Segment::new(0);
    for _ in 0..4 {
        segment.append_batch(&create_batch(), 100);
    }
    // entries at 0 and at 154: 77 bytes apart is below the interval
    assert_eq!(segment.index_len(), 2);
    assert_eq!(segment.find_offset_position(5), Some(154));
    assert_eq!(segment.find_offset_position(7), Some(231));
    assert_eq!(segment.find_offset_position(1), Some(0));
}

#[test]
fn index_size_rolls_segment() {
    let mut log = ReplicaLog::new(
        0,
        LogConfig {
            segment_max_bytes: 100_000,
            index_max_bytes: 16,
            index_interval_bytes: 0,
        },
    );
    for _ in 0..3 {
        log.append(&create_batch()).unwrap();
    }
    // three entries are 24 index bytes: past 16
    assert_eq!(log.segment_count(), 2);
    assert_eq!(log.read_all_batches(RecordsMode::HeaderOnly).len(), 3);
}

#[test]
fn offset_update_payload() {
    let u = FollowerOffsetUpdate::new(5002, 300, -1);
    let bytes = encode_offset_update(&u);
    assert_eq!(bytes.len(), 20);
    assert_eq!(&bytes[0..4], &[0, 0, 0x13, 0x8a]);
    assert_eq!(&bytes[12..20], &[0xff; 8]);
    assert_eq!(decode_offset_update(&bytes), Some(u));
    let bad = encode_offset_update(&FollowerOffsetUpdate { follower_id: 1, leo: 1, hw: 2 });
    assert_eq!(decode_offset_update(&bad), None);
    assert_eq!(decode_offset_update(&bytes[0..19].to_vec()), None);
}

#[test]
fn control_plane_commands() {
    let mut leader = LeaderReplicaState::new(&replica(5001, &[5002]), 1, new_log(0, 100_000));
    leader.write_record_set(&vec![create_batch()]).unwrap();
    assert_eq!(leader.hw(), 2);
    let update = LeaderReplicaControllerCommand::UpdateReplicaFromSc(replica(5001, &[5003]));
    assert!(leader.handle_command(&update));
    assert_eq!(leader.followers()[0].id, 5003);
    let moved = LeaderReplicaControllerCommand::UpdateReplicaFromSc(replica(5003, &[5001]));
    assert!(!leader.handle_command(&moved));
    assert!(!leader.handle_command(&LeaderReplicaControllerCommand::RemoveReplicaFromSc));
    assert_eq!(leader.followers()[0].id, 5003);
}

#[test]
fn file_topic_payload_round_trip() {
    let mut leader = LeaderReplicaState::new(&replica(5001, &[5002]), 2, new_log(0, 100_000));
    leader
        .write_record_set(&vec![create_batch(), create_batch_with_producer(25, 3)])
        .unwrap();
    let batches = leader.batches_from(0);
    let payload = encode_file_topic(&batches, 2);
    assert_eq!(payload.len(), 8 + 77 + 87);
    assert_eq!(&payload[0..8], &[0, 0, 0, 0, 0, 0, 0, 2]);
    let (got, hw) = decode_file_topic(&payload).expect("payload");
    assert_eq!(hw, 2);
    assert_eq!(got.len(), 2);
    assert_eq!(got[1].header, batches[1].header);
    assert_eq!(got[1].records, vec![7u8; 30]);
    let mut cut = payload.clone();
    cut.truncate(payload.len() - 3);
    assert!(decode_file_topic(&cut).is_none());
    assert!(decode_file_topic(&vec![0u8; 7]).is_none());
    let mut follower = FollowerReplicaState::new(5001, new_log(0, 100_000));
    assert_eq!(
        follower.apply_batches(&got, hw),
        FollowerSync::Report { leo: 5, hw: 2 }
    );
}

#[test]
fn fetch_respects_byte_limit() {
    let mut leader = LeaderReplicaState::new(&replica(5001, &[5002]), 2, new_log(0, 100_000));
    for _ in 0..3 {
        leader.write_record_set(&vec![create_batch()]).unwrap();
    }
    // 77 bytes a batch: 160 bytes hold two
    assert_eq!(limit_batches(leader.batches_from(0), 160).len(), 2);
    // the first batch goes even where it alone is over the limit
    assert_eq!(limit_batches(leader.batches_from(0), 10).len(), 1);
    assert_eq!(limit_batches(Vec::new(), 10).len(), 0);
    let mut handler = FollowerHandler::new(5002, 0, 0);
    let push = handler.next_push(&leader, 160).expect("push");
    assert_eq!(push.batches.len(), 2);
    assert_eq!(push.leo, 4);
    handler.mark_sent(&push);
    let push = handler.next_push(&leader, 160).expect("push");
    assert_eq!(push.batches.len(), 1);
    assert_eq!(push.batches[0].header.base_offset, 4);
    assert_eq!(push.leo, 6);
    handler.mark_sent(&push);
    assert!(handler.next_push(&leader, 160).is_none());
}

#[test]
fn replicated_records_are_identical() {
    let mut leader = LeaderReplicaState::new(&replica(5001, &[5002]), 2, new_log(0, 150));
    let mut b = create_batch_with_producer(9, 3);
    b.records = vec![1, 2, 3, 4, 5];
    leader.write_record_set(&vec![create_batch(), b]).unwrap();
    let mut follower = FollowerReplicaState::new(5001, new_log(0, 150));
    let payload = encode_file_topic(&leader.batches_from(follower.leo()), leader.hw());
    let (batches, hw) = decode_file_topic(&payload).expect("payload");
    follower.apply_batches(&batches, hw);
    let ours = follower.get_log().read_all_batches(RecordsMode::Full);
    let theirs = leader.get_log().read_all_batches(RecordsMode::Full);
    assert_eq!(ours.len(), theirs.len());
    for (a, b) in ours.iter().zip(theirs.iter()) {
        assert_eq!(a.get_batch().header, b.get_batch().header);
        assert_eq!(a.get_batch().records, b.get_batch().records);
    }
    assert_eq!(ours[1].get_batch().records, vec![1, 2, 3, 4, 5]);
}

#[test]
fn refused_batch_stops_the_record_set() {
    let mut leader = LeaderReplicaState::new(&replica(5001, &[5002]), 1, new_log(0, 100_000));
    let mut bad = create_batch();
    bad.header.last_offset_delta = -3;
    let r = leader.write_record_set(&vec![create_batch(), bad, create_batch()]);
    assert_eq!(r, Err(AppendError::InvalidBatch));
    assert_eq!(leader.leo(), 2);
    assert_eq!(leader.hw(), 2);
}

#[test]
fn failed_stream_keeps_its_position() {
    let mut log = new_log(0, 100_000);
    log.append(&create_batch()).unwrap();
    let mut bytes = file_of(&log);
    bytes.push(1);
    let mut stream = FileBatchStream::new(bytes, RecordsMode::Full);
    assert!(stream.next().is_some());
    assert!(stream.next().is_none());
    assert!(stream.next().is_none());
    assert_eq!(stream.invalid(), Some(BatchError::UnexpectedEof));
}
