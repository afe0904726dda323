//! The peer protocol between a leader and its followers: frame layout, the
//! registration handshake, and the follower's connection life cycle.
use vstd::prelude::*;

use crate::codec::{
    be_bytes, be_val, lemma_be_val_bound, lemma_pow256_values, read_int, read_uint, signed_at,
    unsigned_of, write_int, write_uint,
};
use crate::actions::FollowerOffsetUpdate;
use crate::batch::{
    batch_bytes, header_valid, lemma_batch_frame, lemma_scan_append, records_of, scan_records,
    BATCH_FILE_HEADER_SIZE, BATCH_HEADER_SIZE, copy_range, encode_header, headers_of, scan, Batch, BatchHeader, FileBatchPos,
    FileBatchStream, RecordsMode,
};
use crate::leader::batch_headers;
use crate::storage::batch_records;
use crate::SpuId;

verus! {

/// Bytes of a frame header: length, api key, api version, correlation id.
pub const FRAME_HEADER_SIZE: usize = 12;

/// Bytes that the length field does not count: the field itself.
pub const FRAME_LENGTH_SIZE: usize = 4;

/// The requests of the peer protocol, by api key.
#[derive(Debug, Clone, Copy, PartialEq, Eq, Structural)]
pub enum SpuPeerApi {
    /// key 0: a follower registers on a stream
    FetchStream,
    /// key 1: batches and high watermark for replicas
    FileTopic,
    /// key 2: a follower reports its offsets
    UpdateOffsets,
}

pub open spec fn api_of_key(key: u16) -> Option<SpuPeerApi> {
    if key == 0 {
        Some(SpuPeerApi::FetchStream)
    } else if key == 1 {
        Some(SpuPeerApi::FileTopic)
    } else if key == 2 {
        Some(SpuPeerApi::UpdateOffsets)
    } else {
        None
    }
}

/// The api that `key` names, if any.
pub fn api_from_key(key: u16) -> (r: Option<SpuPeerApi>)
    ensures
        r == api_of_key(key),
{
    if key == 0 {
        Some(SpuPeerApi::FetchStream)
    } else if key == 1 {
        Some(SpuPeerApi::FileTopic)
    } else if key == 2 {
        Some(SpuPeerApi::UpdateOffsets)
    } else {
        None
    }
}

/// The key of `api`.
pub fn api_key(api: SpuPeerApi) -> (r: u16)
    ensures
        api_of_key(r) == Some(api),
{
    match api {
        SpuPeerApi::FetchStream => 0,
        SpuPeerApi::FileTopic => 1,
        SpuPeerApi::UpdateOffsets => 2,
    }
}

/// Header of one frame.
#[derive(Debug, Clone, Copy, PartialEq, Eq, Structural)]
pub struct FrameHeader {
    /// bytes after the length field: the rest of the header and the payload
    pub length: u32,
    pub api_key: u16,
    pub api_version: u16,
    pub correlation_id: u32,
}

/// Why bytes do not make a frame.
#[derive(Debug, Clone, Copy, PartialEq, Eq, Structural)]
pub enum FrameError {
    /// fewer bytes than the header, or than its length announces
    Incomplete,
    /// the length is too small to hold the header
    Malformed,
    /// the api key names no request: the connection is closed
    UnknownApi,
}

/// The frame header at the start of `s`.
pub open spec fn frame_header_of(s: Seq<u8>) -> FrameHeader {
    FrameHeader {
        length: be_val(s.subrange(0, 4)) as u32,
        api_key: be_val(s.subrange(4, 6)) as u16,
        api_version: be_val(s.subrange(6, 8)) as u16,
        correlation_id: be_val(s.subrange(8, 12)) as u32,
    }
}

/// The bytes of a frame with header `h` and `payload`.
pub open spec fn frame_bytes(h: FrameHeader, payload: Seq<u8>) -> Seq<u8> {
    be_bytes(h.length as nat, 4) + be_bytes(h.api_key as nat, 2) + be_bytes(h.api_version as nat, 2)
        + be_bytes(h.correlation_id as nat, 4) + payload
}

/// One decoded frame.
#[derive(Debug)]
pub struct Frame {
    pub header: FrameHeader,
    pub api: SpuPeerApi,
    pub payload: Vec<u8>,
}

/// Decodes the frame at the start of `bytes`: its header, its api and the
/// payload that its length announces.
pub fn decode_frame(bytes: &Vec<u8>) -> (r: Result<Frame, FrameError>)
    ensures
        bytes@.len() < FRAME_HEADER_SIZE ==> r == Err::<Frame, FrameError>(FrameError::Incomplete),
        bytes@.len() >= FRAME_HEADER_SIZE ==> {
            let h = frame_header_of(bytes@);
            let end = FRAME_LENGTH_SIZE + h.length;
            if h.length < FRAME_HEADER_SIZE - FRAME_LENGTH_SIZE {
                r == Err::<Frame, FrameError>(FrameError::Malformed)
            } else if bytes@.len() < end {
                r == Err::<Frame, FrameError>(FrameError::Incomplete)
            } else if api_of_key(h.api_key) is None {
                r == Err::<Frame, FrameError>(FrameError::UnknownApi)
            } else {
                r is Ok && r->Ok_0.header == h && Some(r->Ok_0.api) == api_of_key(h.api_key)
                    && r->Ok_0.payload@ == bytes@.subrange(FRAME_HEADER_SIZE as int, end)
            }
        },
{
    let len = bytes.len();
    if len < FRAME_HEADER_SIZE {
        return Err(FrameError::Incomplete);
    }
    proof {
        lemma_pow256_values();
        lemma_be_val_bound(bytes@.subrange(0, 4));
        lemma_be_val_bound(bytes@.subrange(4, 6));
        lemma_be_val_bound(bytes@.subrange(6, 8));
        lemma_be_val_bound(bytes@.subrange(8, 12));
    }
    let length = read_uint(bytes, 0, 4) as u32;
    let api_key = read_uint(bytes, 4, 2) as u16;
    let api_version = read_uint(bytes, 6, 2) as u16;
    let correlation_id = read_uint(bytes, 8, 4) as u32;
    let header = FrameHeader { length, api_key, api_version, correlation_id };
    if (length as usize) < FRAME_HEADER_SIZE - FRAME_LENGTH_SIZE {
        return Err(FrameError::Malformed);
    }
    if len - FRAME_LENGTH_SIZE < length as usize {
        return Err(FrameError::Incomplete);
    }
    let api = match api_from_key(api_key) {
        Some(a) => a,
        None => {
            return Err(FrameError::UnknownApi);
        },
    };
    let payload = crate::batch::copy_range(bytes, FRAME_HEADER_SIZE, FRAME_LENGTH_SIZE + length as usize);
    Ok(Frame { header, api, payload })
}

/// Encodes a frame for `api` around `payload`; its length is that of the
/// rest of the header and the payload.
pub fn encode_frame(api: SpuPeerApi, api_version: u16, correlation_id: u32, payload: &Vec<u8>) -> (r:
    Vec<u8>)
    requires
        payload@.len() + FRAME_HEADER_SIZE <= u32::MAX,
    ensures
        r@ == frame_bytes(
            FrameHeader {
                length: (payload@.len() + FRAME_HEADER_SIZE - FRAME_LENGTH_SIZE) as u32,
                api_key: api_key_spec(api),
                api_version,
                correlation_id,
            },
            payload@,
        ),
{
    proof {
        lemma_pow256_values();
    }
    let mut out: Vec<u8> = Vec::new();
    let length = (payload.len() + FRAME_HEADER_SIZE - FRAME_LENGTH_SIZE) as u32;
    write_uint(&mut out, length as u64, 4);
    write_uint(&mut out, api_key(api) as u64, 2);
    write_uint(&mut out, api_version as u64, 2);
    write_uint(&mut out, correlation_id as u64, 4);
    let mut i: usize = 0;
    let ghost start = out@;
    while i < payload.len()
        invariant
            i <= payload@.len(),
            out@ == start + payload@.subrange(0, i as int),
        decreases payload@.len() - i,
    {
        out.push(payload[i]);
        i = i + 1;
        assert(out@ =~= start + payload@.subrange(0, i as int));
    }
    assert(payload@.subrange(0, i as int) =~= payload@);
    assert(out@ =~= start + payload@);
    out
}

pub open spec fn api_key_spec(api: SpuPeerApi) -> u16 {
    match api {
        SpuPeerApi::FetchStream => 0,
        SpuPeerApi::FileTopic => 1,
        SpuPeerApi::UpdateOffsets => 2,
    }
}

/// First request of a follower on a peer connection.
#[derive(Debug, Clone, Copy, PartialEq, Eq, Structural)]
pub struct FetchStreamRequest {
    pub spu_id: SpuId,
}

/// The leader's acknowledgement of a registration.
#[derive(Debug, Clone, Copy, PartialEq, Eq, Structural)]
pub struct FetchStreamResponse {
    pub follower_id: SpuId,
}

impl FetchStreamResponse {
    pub fn new(follower_id: SpuId) -> (r: FetchStreamResponse)
        ensures
            r.follower_id == follower_id,
    {
        FetchStreamResponse { follower_id }
    }
}

/// Payload of a fetch stream request or response: the spu id, 4 bytes.
pub fn decode_spu_id(payload: &Vec<u8>) -> (r: Option<SpuId>)
    ensures
        r is Some <==> payload@.len() >= 4,
        r matches Some(id) ==> id == signed_at(payload@, 0, 4),
{
    if payload.len() < 4 {
        return None;
    }
    proof {
        lemma_pow256_values();
    }
    let v = read_int(payload, 0, 4);
    Some(v as i32)
}

/// Encodes an spu id as a payload.
pub fn encode_spu_id(id: SpuId) -> (r: Vec<u8>)
    ensures
        r@ == be_bytes(unsigned_of(id as int, 4), 4),
        signed_at(r@, 0, 4) == id,
{
    proof {
        lemma_pow256_values();
        crate::codec::lemma_be_round_trip(unsigned_of(id as int, 4), 4);
        crate::codec::lemma_signed_round_trip(id as int, 4);
    }
    let mut out: Vec<u8> = Vec::new();
    write_int(&mut out, id as i64, 4);
    assert(out@.subrange(0, 4) =~= out@);
    out
}

/// The leader's side of the peer connection.
#[derive(Debug)]
pub struct InternalService {}

impl InternalService {
    pub fn new() -> (r: InternalService) {
        InternalService {  }
    }

    /// Answers a follower's registration: acknowledged where the follower is
    /// one this leader knows of, else the connection is dropped (none).
    pub fn register_follower(&self, request: &FetchStreamRequest, known: &Vec<SpuId>) -> (r: Option<
        FetchStreamResponse,
    >)
        ensures
            r is Some <==> known@.contains(request.spu_id),
            r matches Some(resp) ==> resp.follower_id == request.spu_id,
    {
        let mut i: usize = 0;
        while i < known.len()
            invariant
                i <= known@.len(),
                forall|j: int| 0 <= j < i ==> known@[j] != request.spu_id,
            decreases known@.len() - i,
        {
            if known[i] == request.spu_id {
                return Some(FetchStreamResponse::new(request.spu_id));
            }
            i = i + 1;
        }
        None
    }
}

/// Where a follower's connection to its leader stands.
#[derive(Debug, Clone, Copy, PartialEq, Eq, Structural)]
pub enum ConnectionState {
    Connecting,
    Registering,
    Streaming,
    Backoff,
}

/// What happened on the connection.
#[derive(Debug, Clone, Copy, PartialEq, Eq, Structural)]
pub enum ConnectionEvent {
    Connected,
    ConnectFailed,
    /// the leader acknowledged the registration
    Acked,
    /// no acknowledgement came in time
    AckTimeout,
    /// a read or write failed
    IoError,
    /// the back-off delay is over
    BackoffElapsed,
}

/// What the follower does next.
#[derive(Debug, Clone, Copy, PartialEq, Eq, Structural)]
pub enum ConnectionAction {
    Connect,
    /// send the registration, then the current offsets
    Register,
    /// send the current offsets and read frames
    Stream,
    /// close the socket and wait this many milliseconds
    Wait(u64),
    /// the event does not apply in this state
    Ignore,
}

/// First back-off delay, in milliseconds.
pub const BACKOFF_BASE_MS: u64 = 100;

/// Longest back-off delay, in milliseconds.
pub const BACKOFF_CAP_MS: u64 = 10000;

/// The delay after `d`: doubled, at most the cap.
pub open spec fn next_delay(d: u64) -> u64 {
    if d * 2 > BACKOFF_CAP_MS {
        BACKOFF_CAP_MS
    } else {
        (d * 2) as u64
    }
}

/// The connection life cycle of a follower: connect, register, stream, and
/// after a failure wait with exponential back-off and connect again.
#[derive(Debug, Clone, Copy, PartialEq, Eq, Structural)]
pub struct FollowerConnection {
    pub state: ConnectionState,
    /// delay of the next wait
    pub delay_ms: u64,
}

impl FollowerConnection {
    pub open spec fn wf(&self) -> bool {
        BACKOFF_BASE_MS <= self.delay_ms <= BACKOFF_CAP_MS
    }

    pub fn new() -> (r: FollowerConnection)
        ensures
            r.wf(),
            r.state == ConnectionState::Connecting,
            r.delay_ms == BACKOFF_BASE_MS,
    {
        FollowerConnection { state: ConnectionState::Connecting, delay_ms: BACKOFF_BASE_MS }
    }

    /// Moves on with `event` and says what to do.
    pub fn on_event(&mut self, event: ConnectionEvent) -> (r: ConnectionAction)
        requires
            old(self).wf(),
        ensures
            final(self).wf(),
            match (old(self).state, event) {
                (ConnectionState::Connecting, ConnectionEvent::Connected) => final(self).state
                    == ConnectionState::Registering && r == ConnectionAction::Register
                    && final(self).delay_ms == old(self).delay_ms,
                (ConnectionState::Registering, ConnectionEvent::Acked) => final(self).state
                    == ConnectionState::Streaming && r == ConnectionAction::Stream
                    && final(self).delay_ms == BACKOFF_BASE_MS,
                (ConnectionState::Backoff, ConnectionEvent::BackoffElapsed) => final(self).state
                    == ConnectionState::Connecting && r == ConnectionAction::Connect
                    && final(self).delay_ms == old(self).delay_ms,
                (ConnectionState::Connecting, ConnectionEvent::ConnectFailed)
                | (ConnectionState::Registering, ConnectionEvent::AckTimeout)
                | (ConnectionState::Registering, ConnectionEvent::IoError)
                | (ConnectionState::Streaming, ConnectionEvent::IoError) => final(self).state
                    == ConnectionState::Backoff && r == ConnectionAction::Wait(old(self).delay_ms)
                    && final(self).delay_ms == next_delay(old(self).delay_ms),
                _ => *final(self) == *old(self) && r == ConnectionAction::Ignore,
            },
    {
        match (self.state, event) {
            (ConnectionState::Connecting, ConnectionEvent::Connected) => {
                self.state = ConnectionState::Registering;
                ConnectionAction::Register
            },
            (ConnectionState::Registering, ConnectionEvent::Acked) => {
                self.state = ConnectionState::Streaming;
                self.delay_ms = BACKOFF_BASE_MS;
                ConnectionAction::Stream
            },
            (ConnectionState::Backoff, ConnectionEvent::BackoffElapsed) => {
                self.state = ConnectionState::Connecting;
                ConnectionAction::Connect
            },
            (ConnectionState::Connecting, ConnectionEvent::ConnectFailed)
            | (ConnectionState::Registering, ConnectionEvent::AckTimeout)
            | (ConnectionState::Registering, ConnectionEvent::IoError)
            | (ConnectionState::Streaming, ConnectionEvent::IoError) => {
                let wait = self.delay_ms;
                self.state = ConnectionState::Backoff;
                self.delay_ms = if self.delay_ms * 2 > BACKOFF_CAP_MS {
                    BACKOFF_CAP_MS
                } else {
                    self.delay_ms * 2
                };
                ConnectionAction::Wait(wait)
            },
            _ => ConnectionAction::Ignore,
        }
    }
}

/// Payload of an offset update: follower id (4 bytes), end offset and high
/// watermark (8 bytes each).
pub open spec fn offset_update_bytes(u: FollowerOffsetUpdate) -> Seq<u8> {
    be_bytes(unsigned_of(u.follower_id as int, 4), 4) + be_bytes(unsigned_of(u.leo as int, 8), 8)
        + be_bytes(unsigned_of(u.hw as int, 8), 8)
}

/// Encodes an offset update as a payload.
pub fn encode_offset_update(u: &FollowerOffsetUpdate) -> (r: Vec<u8>)
    ensures
        r@ == offset_update_bytes(*u),
{
    proof {
        lemma_pow256_values();
    }
    let mut out: Vec<u8> = Vec::new();
    write_int(&mut out, u.follower_id as i64, 4);
    write_int(&mut out, u.leo, 8);
    write_int(&mut out, u.hw, 8);
    assert(out@ =~= offset_update_bytes(*u));
    out
}

/// Decodes an offset update. None where the payload is short, or where the
/// high watermark is above the end offset: such an update is dropped.
pub fn decode_offset_update(payload: &Vec<u8>) -> (r: Option<FollowerOffsetUpdate>)
    ensures
        r is Some <==> payload@.len() >= 20 && signed_at(payload@, 12, 8) <= signed_at(payload@, 4, 8),
        r matches Some(u) ==> u.follower_id == signed_at(payload@, 0, 4) && u.leo == signed_at(
            payload@,
            4,
            8,
        ) && u.hw == signed_at(payload@, 12, 8),
{
    if payload.len() < 20 {
        return None;
    }
    proof {
        lemma_pow256_values();
    }
    let id = read_int(payload, 0, 4);
    let leo = read_int(payload, 4, 8);
    let hw = read_int(payload, 12, 8);
    if hw > leo {
        return None;
    }
    Some(FollowerOffsetUpdate::new(id as i32, leo, hw))
}

/// The frames of `bs`, one after the other.
pub open spec fn frames_of(bs: Seq<Batch>) -> Seq<u8>
    decreases bs.len(),
{
    if bs.len() == 0 {
        seq![]
    } else {
        frames_of(bs.drop_last()) + batch_bytes(bs.last().header, bs.last().records@)
    }
}

/// Payload of a file-topic response: the leader's high watermark (8 bytes),
/// then the batches framed as in a data file.
pub fn encode_file_topic(batches: &Vec<Batch>, hw: i64) -> (r: Vec<u8>)
    ensures
        r@ == be_bytes(unsigned_of(hw as int, 8), 8) + frames_of(batches@),
{
    proof {
        lemma_pow256_values();
    }
    let mut out: Vec<u8> = Vec::new();
    write_int(&mut out, hw, 8);
    let ghost start = out@;
    let mut i: usize = 0;
    while i < batches.len()
        invariant
            i <= batches@.len(),
            out@ == start + frames_of(batches@.subrange(0, i as int)),
        decreases batches@.len() - i,
    {
        let ghost prev = out@;
        encode_header(&batches[i].header, &mut out);
        crate::storage::append_bytes(&mut out, &batches[i].records);
        proof {
            let sub = batches@.subrange(0, i + 1);
            assert(sub.drop_last() =~= batches@.subrange(0, i as int));
            assert(out@ =~= start + frames_of(sub));
        }
        i = i + 1;
    }
    assert(batches@.subrange(0, i as int) =~= batches@);
    out
}

/// Decodes a file-topic payload: the batches it carries, records included,
/// and the leader's high watermark. None where it is shorter than the
/// watermark or its batches do not read to the end without error.
pub fn decode_file_topic(payload: &Vec<u8>) -> (r: Option<(Vec<Batch>, i64)>)
    ensures
        r is Some <==> payload@.len() >= 8 && payload@.len() - 8 <= u32::MAX && scan(
            payload@.subrange(8, payload@.len() as int),
            0,
        ).1 is None,
        r matches Some((bs, hw)) ==> batch_headers(bs@) == scan(
            payload@.subrange(8, payload@.len() as int),
            0,
        ).0 && hw == signed_at(payload@, 0, 8) && batch_records(bs@) == scan_records(
            payload@.subrange(8, payload@.len() as int),
            0,
            RecordsMode::Full,
        ),
{
    let len = payload.len();
    if len < 8 || len - 8 > u32::MAX as usize {
        return None;
    }
    let hw = read_int(payload, 0, 8);
    let rest = copy_range(payload, 8, len);
    let mut stream = FileBatchStream::new(rest, RecordsMode::Full);
    let mut read = stream.read_all();
    if stream.invalid().is_some() {
        return None;
    }
    let ghost all = read@;
    let n = read.len();
    let mut out: Vec<Batch> = Vec::new();
    let mut i: usize = 0;
    while i < n
        invariant
            n == all.len(),
            i <= n,
            read@ == all.subrange(i as int, n as int),
            batch_headers(out@) == headers_of(all.subrange(0, i as int)),
            batch_records(out@) == records_of(all.subrange(0, i as int)),
        decreases n - i,
    {
        let fb = read.remove(0);
        assert(fb == all[i as int]);
        let b = fb.into_batch();
        let ghost prev = out@;
        out.push(b);
        assert(headers_of(all.subrange(0, i + 1)) =~= headers_of(all.subrange(0, i as int)).push(
            b.header,
        ));
        assert(batch_headers(out@) =~= batch_headers(prev).push(b.header));
        assert(records_of(all.subrange(0, i + 1)) =~= records_of(all.subrange(0, i as int)).push(
            b.records@,
        ));
        assert(batch_records(out@) =~= batch_records(prev).push(b.records@));
        i = i + 1;
    }
    assert(all.subrange(0, i as int) =~= all);
    Some((out, hw))
}

/// Batches whose headers frame them: valid, with a length that covers
/// header and records.
pub open spec fn well_framed(bs: Seq<Batch>) -> bool {
    forall|i: int|
        0 <= i < bs.len() ==> header_valid(#[trigger] bs[i].header) && bs[i].header.batch_len
            == BATCH_HEADER_SIZE + bs[i].records@.len()
}

proof fn lemma_frames_scan(bs: Seq<Batch>)
    requires
        well_framed(bs),
    ensures
        scan(frames_of(bs), 0) == (batch_headers(bs), None::<crate::batch::BatchError>),
        scan_records(frames_of(bs), 0, RecordsMode::Full) == batch_records(bs),
    decreases bs.len(),
{
    if bs.len() == 0 {
        assert(crate::batch::step_at(frames_of(bs), 0) == crate::batch::ReadStep::End);
        assert(batch_headers(bs) =~= Seq::<BatchHeader>::empty());
        assert(batch_records(bs) =~= Seq::<Seq<u8>>::empty());
    } else {
        let front = bs.drop_last();
        assert(well_framed(front)) by {
            assert forall|i: int| 0 <= i < front.len() implies header_valid(#[trigger] front[i].header)
                && front[i].header.batch_len == BATCH_HEADER_SIZE + front[i].records@.len() by {
                assert(front[i] == bs[i]);
            }
        }
        lemma_frames_scan(front);
        let last = bs[bs.len() - 1];
        lemma_batch_frame(last.header, last.records@);
        lemma_scan_append(frames_of(front), batch_bytes(last.header, last.records@));
        crate::batch::lemma_scan_records_append_from(
            frames_of(front),
            batch_bytes(last.header, last.records@),
            0,
        );
        let fr = batch_bytes(last.header, last.records@);
        assert(fr.subrange(BATCH_FILE_HEADER_SIZE as int, fr.len() as int) =~= last.records@);
        assert(batch_headers(bs) =~= batch_headers(front).push(last.header));
        assert(batch_records(bs) =~= batch_records(front).push(last.records@));
    }
}

/// Decoding what `encode_file_topic` writes gives back the watermark and,
/// for well-framed batches, their headers in order with nothing left over.
pub proof fn lemma_file_topic_round_trip(bs: Seq<Batch>, hw: i64)
    requires
        well_framed(bs),
    ensures
        ({
            let p = be_bytes(unsigned_of(hw as int, 8), 8) + frames_of(bs);
            &&& signed_at(p, 0, 8) == hw
            &&& scan(p.subrange(8, p.len() as int), 0) == (batch_headers(bs), None::<
                crate::batch::BatchError,
            >)
            &&& scan_records(p.subrange(8, p.len() as int), 0, RecordsMode::Full) == batch_records(
                bs,
            )
        }),
{
    lemma_pow256_values();
    crate::codec::lemma_be_round_trip(unsigned_of(hw as int, 8), 8);
    crate::codec::lemma_signed_round_trip(hw as int, 8);
    let p = be_bytes(unsigned_of(hw as int, 8), 8) + frames_of(bs);
    assert(p.subrange(0, 8) =~= be_bytes(unsigned_of(hw as int, 8), 8));
    assert(p.subrange(8, p.len() as int) =~= frames_of(bs));
    lemma_frames_scan(bs);
}

} // verus!
