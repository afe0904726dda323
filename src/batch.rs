//! Record batches as framed in a data file, and the stream that decodes them
//! one at a time from a byte position.
use vstd::prelude::*;

use crate::codec::{
    be_bytes, be_val, fits_signed, is_width, lemma_be_round_trip, lemma_pow256_values,
    lemma_signed_round_trip, pow256, read_int, read_uint, signed_at, unsigned_of, write_int,
    write_uint,
};
use crate::{Offset, Size};

verus! {

/// Bytes of the preamble: base offset and batch length.
pub const BATCH_PREAMBLE_SIZE: usize = 12;

/// Bytes of the header that follows the preamble.
pub const BATCH_HEADER_SIZE: usize = 45;

/// Bytes of preamble and header together.
pub const BATCH_FILE_HEADER_SIZE: usize = 57;

/// Preamble and header of one record batch.
#[derive(Clone, Copy, Debug, PartialEq, Eq, Structural)]
pub struct BatchHeader {
    pub base_offset: i64,
    /// bytes after the preamble: header plus records
    pub batch_len: i32,
    pub partition_leader_epoch: i32,
    pub magic: i8,
    pub crc: u32,
    pub attributes: i16,
    pub last_offset_delta: i32,
    pub first_timestamp: i64,
    pub max_time_stamp: i64,
    pub producer_id: i64,
    pub producer_epoch: i16,
    pub first_sequence: i32,
}

/// The header decoded from the 57 bytes at `pos`.
pub open spec fn header_at(s: Seq<u8>, pos: int) -> BatchHeader {
    BatchHeader {
        base_offset: signed_at(s, pos, 8) as i64,
        batch_len: signed_at(s, pos + 8, 4) as i32,
        partition_leader_epoch: signed_at(s, pos + 12, 4) as i32,
        magic: signed_at(s, pos + 16, 1) as i8,
        crc: be_val(s.subrange(pos + 17, pos + 21)) as u32,
        attributes: signed_at(s, pos + 21, 2) as i16,
        last_offset_delta: signed_at(s, pos + 23, 4) as i32,
        first_timestamp: signed_at(s, pos + 27, 8) as i64,
        max_time_stamp: signed_at(s, pos + 35, 8) as i64,
        producer_id: signed_at(s, pos + 43, 8) as i64,
        producer_epoch: signed_at(s, pos + 51, 2) as i16,
        first_sequence: signed_at(s, pos + 53, 4) as i32,
    }
}

/// The 57 bytes of preamble and header.
pub open spec fn header_bytes(h: BatchHeader) -> Seq<u8> {
    be_bytes(unsigned_of(h.base_offset as int, 8), 8) + be_bytes(
        unsigned_of(h.batch_len as int, 4),
        4,
    ) + be_bytes(unsigned_of(h.partition_leader_epoch as int, 4), 4) + be_bytes(
        unsigned_of(h.magic as int, 1),
        1,
    ) + be_bytes(h.crc as nat, 4) + be_bytes(unsigned_of(h.attributes as int, 2), 2) + be_bytes(
        unsigned_of(h.last_offset_delta as int, 4),
        4,
    ) + be_bytes(unsigned_of(h.first_timestamp as int, 8), 8) + be_bytes(
        unsigned_of(h.max_time_stamp as int, 8),
        8,
    ) + be_bytes(unsigned_of(h.producer_id as int, 8), 8) + be_bytes(
        unsigned_of(h.producer_epoch as int, 2),
        2,
    ) + be_bytes(unsigned_of(h.first_sequence as int, 4), 4)
}

/// Decodes preamble and header at `pos`.
pub fn decode_header(data: &Vec<u8>, pos: usize) -> (r: BatchHeader)
    requires
        pos + BATCH_FILE_HEADER_SIZE <= data@.len(),
    ensures
        r == header_at(data@, pos as int),
{
    let len = data.len();
    assert(pos + BATCH_FILE_HEADER_SIZE <= len);
    let crc = read_uint(data, pos + 17, 4);
    proof {
        lemma_pow256_values();
        crate::codec::lemma_be_val_bound(data@.subrange(pos + 17, pos + 21));
    }
    BatchHeader {
        base_offset: read_int(data, pos, 8),
        batch_len: read_int(data, pos + 8, 4) as i32,
        partition_leader_epoch: read_int(data, pos + 12, 4) as i32,
        magic: read_int(data, pos + 16, 1) as i8,
        crc: crc as u32,
        attributes: read_int(data, pos + 21, 2) as i16,
        last_offset_delta: read_int(data, pos + 23, 4) as i32,
        first_timestamp: read_int(data, pos + 27, 8),
        max_time_stamp: read_int(data, pos + 35, 8),
        producer_id: read_int(data, pos + 43, 8),
        producer_epoch: read_int(data, pos + 51, 2) as i16,
        first_sequence: read_int(data, pos + 53, 4) as i32,
    }
}

/// Appends the preamble and header of `h`.
pub fn encode_header(h: &BatchHeader, out: &mut Vec<u8>)
    ensures
        final(out)@ == old(out)@ + header_bytes(*h),
{
    proof {
        lemma_pow256_values();
    }
    write_int(out, h.base_offset as i64, 8);
    write_int(out, h.batch_len as i64, 4);
    write_int(out, h.partition_leader_epoch as i64, 4);
    write_int(out, h.magic as i64, 1);
    write_uint(out, h.crc as u64, 4);
    write_int(out, h.attributes as i64, 2);
    write_int(out, h.last_offset_delta as i64, 4);
    write_int(out, h.first_timestamp as i64, 8);
    write_int(out, h.max_time_stamp as i64, 8);
    write_int(out, h.producer_id as i64, 8);
    write_int(out, h.producer_epoch as i64, 2);
    write_int(out, h.first_sequence as i64, 4);
    assert(final(out)@ =~= old(out)@ + header_bytes(*h));
}

/// Decoding the encoded header gives it back, wherever it stands.
pub proof fn lemma_header_round_trip(pre: Seq<u8>, h: BatchHeader, rest: Seq<u8>)
    ensures
        header_bytes(h).len() == BATCH_FILE_HEADER_SIZE,
        header_at(pre + header_bytes(h) + rest, pre.len() as int) == h,
{
    lemma_pow256_values();
    let s = pre + header_bytes(h) + rest;
    let p = pre.len() as int;
    lemma_be_round_trip(unsigned_of(h.base_offset as int, 8), 8);
    lemma_signed_round_trip(h.base_offset as int, 8);
    lemma_be_round_trip(unsigned_of(h.batch_len as int, 4), 4);
    lemma_signed_round_trip(h.batch_len as int, 4);
    lemma_be_round_trip(unsigned_of(h.partition_leader_epoch as int, 4), 4);
    lemma_signed_round_trip(h.partition_leader_epoch as int, 4);
    lemma_be_round_trip(unsigned_of(h.magic as int, 1), 1);
    lemma_signed_round_trip(h.magic as int, 1);
    lemma_be_round_trip(h.crc as nat, 4);
    lemma_be_round_trip(unsigned_of(h.attributes as int, 2), 2);
    lemma_signed_round_trip(h.attributes as int, 2);
    lemma_be_round_trip(unsigned_of(h.last_offset_delta as int, 4), 4);
    lemma_signed_round_trip(h.last_offset_delta as int, 4);
    lemma_be_round_trip(unsigned_of(h.first_timestamp as int, 8), 8);
    lemma_signed_round_trip(h.first_timestamp as int, 8);
    lemma_be_round_trip(unsigned_of(h.max_time_stamp as int, 8), 8);
    lemma_signed_round_trip(h.max_time_stamp as int, 8);
    lemma_be_round_trip(unsigned_of(h.producer_id as int, 8), 8);
    lemma_signed_round_trip(h.producer_id as int, 8);
    lemma_be_round_trip(unsigned_of(h.producer_epoch as int, 2), 2);
    lemma_signed_round_trip(h.producer_epoch as int, 2);
    lemma_be_round_trip(unsigned_of(h.first_sequence as int, 4), 4);
    lemma_signed_round_trip(h.first_sequence as int, 4);
    assert(header_bytes(h).len() == 57);
    assert(s.subrange(p + 0, p + 8) =~= be_bytes(unsigned_of(h.base_offset as int, 8), 8));
    assert(s.subrange(p + 8, p + 12) =~= be_bytes(unsigned_of(h.batch_len as int, 4), 4));
    assert(s.subrange(p + 12, p + 16) =~= be_bytes(unsigned_of(h.partition_leader_epoch as int, 4), 4));
    assert(s.subrange(p + 16, p + 17) =~= be_bytes(unsigned_of(h.magic as int, 1), 1));
    assert(s.subrange(p + 17, p + 21) =~= be_bytes(h.crc as nat, 4));
    assert(s.subrange(p + 21, p + 23) =~= be_bytes(unsigned_of(h.attributes as int, 2), 2));
    assert(s.subrange(p + 23, p + 27) =~= be_bytes(unsigned_of(h.last_offset_delta as int, 4), 4));
    assert(s.subrange(p + 27, p + 35) =~= be_bytes(unsigned_of(h.first_timestamp as int, 8), 8));
    assert(s.subrange(p + 35, p + 43) =~= be_bytes(unsigned_of(h.max_time_stamp as int, 8), 8));
    assert(s.subrange(p + 43, p + 51) =~= be_bytes(unsigned_of(h.producer_id as int, 8), 8));
    assert(s.subrange(p + 51, p + 53) =~= be_bytes(unsigned_of(h.producer_epoch as int, 2), 2));
    assert(s.subrange(p + 53, p + 57) =~= be_bytes(unsigned_of(h.first_sequence as int, 4), 4));
}

/// Why a batch could not be read.
#[derive(Clone, Copy, Debug, PartialEq, Eq, Structural)]
pub enum BatchError {
    /// the file ends inside a batch
    UnexpectedEof,
    /// the framing is not that of a batch
    Decode,
}

/// Whether the record bytes of each batch are kept in memory or skipped.
#[derive(Clone, Copy, Debug, PartialEq, Eq, Structural)]
pub enum RecordsMode {
    Full,
    HeaderOnly,
}

/// A header that frames a batch: its length covers at least the header, and
/// its offsets are non-negative with a last offset below `i64::MAX`.
pub open spec fn header_valid(h: BatchHeader) -> bool {
    &&& h.batch_len >= BATCH_HEADER_SIZE
    &&& h.base_offset >= 0
    &&& h.last_offset_delta >= 0
    &&& h.base_offset + h.last_offset_delta < i64::MAX
}

/// Bytes of the whole batch on disk, preamble included.
pub open spec fn total_len_of(h: BatchHeader) -> int {
    BATCH_PREAMBLE_SIZE + h.batch_len
}

/// Exec form of `header_valid`.
pub fn is_header_valid(h: &BatchHeader) -> (r: bool)
    ensures
        r == header_valid(*h),
{
    h.batch_len >= BATCH_HEADER_SIZE as i32 && h.base_offset >= 0 && h.last_offset_delta >= 0
        && h.base_offset < i64::MAX - h.last_offset_delta as i64
}

/// What reading at one position of a file finds.
pub enum ReadStep {
    /// no byte left
    End,
    Fail(BatchError),
    /// a batch, and the position of the next one
    Found(BatchHeader, int),
}

/// One read at `pos`: the header must be whole and valid, and the file must
/// hold every byte of the batch.
pub open spec fn step_at(s: Seq<u8>, pos: int) -> ReadStep {
    if pos >= s.len() {
        ReadStep::End
    } else if s.len() - pos < BATCH_FILE_HEADER_SIZE {
        ReadStep::Fail(BatchError::UnexpectedEof)
    } else if !header_valid(header_at(s, pos)) {
        ReadStep::Fail(BatchError::Decode)
    } else if s.len() - pos < total_len_of(header_at(s, pos)) {
        ReadStep::Fail(BatchError::UnexpectedEof)
    } else {
        ReadStep::Found(header_at(s, pos), pos + total_len_of(header_at(s, pos)))
    }
}

/// The headers of all batches read from `pos` on, and the error that ended
/// the reading, if one did.
pub open spec fn scan(s: Seq<u8>, pos: int) -> (Seq<BatchHeader>, Option<BatchError>)
    decreases s.len() - pos,
{
    match step_at(s, pos) {
        ReadStep::End => (seq![], None),
        ReadStep::Fail(e) => (seq![], Some(e)),
        ReadStep::Found(h, next) => if next > pos && pos < s.len() {
            let rest = scan(s, next);
            (seq![h] + rest.0, rest.1)
        } else {
            (seq![], None)
        },
    }
}

/// The record bytes that reading from `pos` on keeps in `mode`, one entry
/// per batch, alongside the headers of `scan`.
pub open spec fn scan_records(s: Seq<u8>, pos: int, mode: RecordsMode) -> Seq<Seq<u8>>
    decreases s.len() - pos,
{
    match step_at(s, pos) {
        ReadStep::Found(h, next) => if next > pos && pos < s.len() {
            seq![kept_records(s, pos, next, mode)] + scan_records(s, next, mode)
        } else {
            seq![]
        },
        _ => seq![],
    }
}

/// Record bytes of a sequence of read batches.
pub open spec fn records_of(v: Seq<FileBatchPos>) -> Seq<Seq<u8>> {
    v.map_values(|b: FileBatchPos| b.batch().records@)
}

/// Copies the bytes `from .. to` of `data`.
pub fn copy_range(data: &Vec<u8>, from: usize, to: usize) -> (r: Vec<u8>)
    requires
        from <= to <= data@.len(),
    ensures
        r@ == data@.subrange(from as int, to as int),
{
    let mut r: Vec<u8> = Vec::new();
    let mut i: usize = from;
    while i < to
        invariant
            from <= i <= to <= data@.len(),
            r@ == data@.subrange(from as int, i as int),
        decreases to - i,
    {
        r.push(data[i]);
        i = i + 1;
        assert(r@ =~= data@.subrange(from as int, i as int));
    }
    r
}

/// A record batch: its header and, when read in full, its record bytes.
#[derive(Debug)]
pub struct Batch {
    pub header: BatchHeader,
    pub records: Vec<u8>,
}

impl Batch {
    pub fn get_header(&self) -> (r: &BatchHeader)
        ensures
            *r == self.header,
    {
        &self.header
    }

    pub fn get_base_offset(&self) -> (r: Offset)
        ensures
            r == self.header.base_offset,
    {
        self.header.base_offset
    }

    pub fn get_last_offset_delta(&self) -> (r: i32)
        ensures
            r == self.header.last_offset_delta,
    {
        self.header.last_offset_delta
    }

    /// Offset of the last record: base offset plus last offset delta.
    pub fn get_last_offset(&self) -> (r: Offset)
        requires
            i64::MIN <= self.header.base_offset + self.header.last_offset_delta <= i64::MAX,
        ensures
            r == self.header.base_offset + self.header.last_offset_delta,
    {
        self.header.base_offset + self.header.last_offset_delta as i64
    }
}

/// A batch and the file position of its preamble.
pub struct FileBatchPos {
    inner: Batch,
    pos: Size,
    mode: RecordsMode,
}

impl FileBatchPos {
    pub closed spec fn batch(&self) -> Batch {
        self.inner
    }

    pub closed spec fn position(&self) -> Size {
        self.pos
    }

    pub closed spec fn records_mode(&self) -> RecordsMode {
        self.mode
    }

    #[verifier::type_invariant]
    spec fn inv(&self) -> bool {
        header_valid(self.inner.header)
    }

    pub fn get_batch(&self) -> (r: &Batch)
        ensures
            *r == self.batch(),
    {
        &self.inner
    }

    pub fn get_pos(&self) -> (r: Size)
        ensures
            r == self.position(),
    {
        self.pos
    }

    pub fn get_base_offset(&self) -> (r: Offset)
        ensures
            r == self.batch().header.base_offset,
    {
        self.inner.header.base_offset
    }

    pub fn get_last_offset(&self) -> (r: Offset)
        ensures
            r == self.batch().header.base_offset + self.batch().header.last_offset_delta,
    {
        proof {
            use_type_invariant(self);
        }
        self.inner.get_last_offset()
    }

    /// The batch itself.
    pub fn into_batch(self) -> (r: Batch)
        ensures
            r == self.batch(),
    {
        self.inner
    }

    /// Batch length, preamble not included.
    pub fn len(&self) -> (r: Size)
        ensures
            r == self.batch().header.batch_len,
    {
        proof {
            use_type_invariant(self);
        }
        self.inner.header.batch_len as Size
    }

    /// Batch length, preamble included.
    pub fn total_len(&self) -> (r: Size)
        ensures
            r == total_len_of(self.batch().header),
    {
        proof {
            use_type_invariant(self);
        }
        self.len() + BATCH_PREAMBLE_SIZE as Size
    }

    /// How many of the `remainder` record bytes are read into memory: all of
    /// them in full mode, none when only headers are read.
    pub fn records_remainder_bytes(&self, remainder: usize) -> (r: usize)
        ensures
            r == (if self.records_mode() == RecordsMode::Full {
                remainder
            } else {
                0
            }),
    {
        match self.mode {
            RecordsMode::Full => remainder,
            RecordsMode::HeaderOnly => 0,
        }
    }
}

/// Record bytes that a read in `mode` keeps of the batch from `start` to `next`.
pub open spec fn kept_records(s: Seq<u8>, start: int, next: int, mode: RecordsMode) -> Seq<u8> {
    if mode == RecordsMode::Full {
        s.subrange(start + BATCH_FILE_HEADER_SIZE, next)
    } else {
        seq![]
    }
}

/// What a read at `pos` hands back, as `step_at` describes it.
pub open spec fn read_matches(
    s: Seq<u8>,
    pos: int,
    mode: RecordsMode,
    r: Result<Option<FileBatchPos>, BatchError>,
) -> bool {
    match step_at(s, pos) {
        ReadStep::End => r == Ok::<Option<FileBatchPos>, BatchError>(None),
        ReadStep::Fail(e) => r == Err::<Option<FileBatchPos>, BatchError>(e),
        ReadStep::Found(h, next) => r is Ok && r->Ok_0 is Some && {
            let b = r->Ok_0->Some_0;
            &&& b.batch().header == h
            &&& b.batch().records@ == kept_records(s, pos, next, mode)
            &&& b.position() == pos
            &&& b.records_mode() == mode
        },
    }
}

impl FileBatchPos {
    /// Decodes the batch whose preamble starts at `pos` of the file bytes
    /// `data`: none where the file ends there, an error where it ends inside
    /// the batch or the framing is wrong.
    pub fn from(data: &Vec<u8>, pos: Size, mode: RecordsMode) -> (r: Result<
        Option<FileBatchPos>,
        BatchError,
    >)
        requires
            data@.len() <= u32::MAX,
        ensures
            read_matches(data@, pos as int, mode, r),
            r matches Ok(Some(b)) ==> pos + total_len_of(b.batch().header) <= data@.len(),
    {
        let len = data.len();
        let at = pos as usize;
        if at >= len {
            return Ok(None);
        }
        if len - at < BATCH_FILE_HEADER_SIZE {
            return Err(BatchError::UnexpectedEof);
        }
        let header = decode_header(data, at);
        if !is_header_valid(&header) {
            return Err(BatchError::Decode);
        }
        let total = BATCH_PREAMBLE_SIZE + header.batch_len as usize;
        if len - at < total {
            return Err(BatchError::UnexpectedEof);
        }
        let mut file_batch = FileBatchPos {
            inner: Batch { header, records: Vec::new() },
            pos,
            mode,
        };
        let remainder = header.batch_len as usize - BATCH_HEADER_SIZE;
        if file_batch.records_remainder_bytes(remainder) > 0 {
            let records = read_records(data, at + BATCH_FILE_HEADER_SIZE, remainder);
            file_batch = FileBatchPos { inner: Batch { header, records }, pos, mode };
        }
        proof {
            if mode == RecordsMode::Full && remainder == 0 {
                assert(file_batch.inner.records@ =~= data@.subrange(
                    at + BATCH_FILE_HEADER_SIZE,
                    at + total,
                ));
            }
        }
        Ok(Some(file_batch))
    }
}

/// Reads the `remainder` record bytes that start at `start`.
fn read_records(data: &Vec<u8>, start: usize, remainder: usize) -> (r: Vec<u8>)
    requires
        start + remainder <= data@.len(),
    ensures
        r@ == data@.subrange(start as int, start + remainder),
{
    let len = data.len();
    assert(start + remainder <= len);
    copy_range(data, start, start + remainder)
}

/// Headers of a sequence of read batches.
pub open spec fn headers_of(v: Seq<FileBatchPos>) -> Seq<BatchHeader> {
    v.map_values(|b: FileBatchPos| b.batch().header)
}

/// Reads the batches of a data file one after the other.
pub struct FileBatchStream {
    pos: Size,
    invalid: Option<BatchError>,
    data: Vec<u8>,
    mode: RecordsMode,
}

impl FileBatchStream {
    pub closed spec fn bytes(&self) -> Seq<u8> {
        self.data@
    }

    pub closed spec fn position(&self) -> Size {
        self.pos
    }

    pub closed spec fn error(&self) -> Option<BatchError> {
        self.invalid
    }

    pub closed spec fn records_mode(&self) -> RecordsMode {
        self.mode
    }

    /// What is left to read: nothing once the stream failed.
    pub open spec fn remaining(&self) -> (Seq<BatchHeader>, Option<BatchError>) {
        if self.error() is Some {
            (seq![], self.error())
        } else {
            scan(self.bytes(), self.position() as int)
        }
    }

    /// Record bytes left to read: none once the stream failed.
    pub open spec fn remaining_records(&self) -> Seq<Seq<u8>> {
        if self.error() is Some {
            seq![]
        } else {
            scan_records(self.bytes(), self.position() as int, self.records_mode())
        }
    }

    #[verifier::type_invariant]
    spec fn inv(&self) -> bool {
        self.pos <= self.data@.len() <= u32::MAX
    }

    /// A stream over the file bytes `data`, from its start.
    pub fn new(data: Vec<u8>, mode: RecordsMode) -> (r: FileBatchStream)
        requires
            data@.len() <= u32::MAX,
        ensures
            r.bytes() == data@,
            r.position() == 0,
            r.error() is None,
            r.records_mode() == mode,
    {
        FileBatchStream { pos: 0, invalid: None, data, mode }
    }

    /// A stream over `data` from the byte position `pos`, which must lie
    /// within the file.
    pub fn new_with_pos(data: Vec<u8>, pos: Size, mode: RecordsMode) -> (r: Result<
        FileBatchStream,
        BatchError,
    >)
        requires
            data@.len() <= u32::MAX,
        ensures
            r is Ok <==> pos <= data@.len(),
            r matches Ok(st) ==> st.bytes() == data@ && st.position() == pos && st.error() is None
                && st.records_mode() == mode,
            r matches Err(e) ==> e == BatchError::UnexpectedEof,
    {
        if pos as usize > data.len() {
            return Err(BatchError::UnexpectedEof);
        }
        Ok(FileBatchStream { pos, invalid: None, data, mode })
    }

    /// The error that ended the stream, if one did.
    pub fn invalid(self) -> (r: Option<BatchError>)
        ensures
            r == self.error(),
    {
        self.invalid
    }

    /// The next batch. On an error the stream records it and ends; an ended
    /// stream yields nothing more.
    pub fn next(&mut self) -> (r: Option<FileBatchPos>)
        ensures
            final(self).bytes() == old(self).bytes(),
            final(self).records_mode() == old(self).records_mode(),
            old(self).error() is Some ==> r is None && final(self).error() == old(self).error(),
            r is None ==> final(self).position() == old(self).position(),
            r matches Some(b) ==> old(self).remaining_records() == seq![b.batch().records@]
                + final(self).remaining_records(),
            r is None ==> old(self).remaining_records() == Seq::<Seq<u8>>::empty(),
            old(self).error() is None ==> match step_at(old(self).bytes(), old(self).position() as int) {
                ReadStep::End => r is None && final(self).error() is None && final(self).position()
                    == old(self).position(),
                ReadStep::Fail(e) => r is None && final(self).error() == Some(e),
                ReadStep::Found(h, next) => r is Some && final(self).error() is None
                    && final(self).position() == next && r->0.batch().header == h
                    && r->0.position() == old(self).position() && r->0.batch().records@
                    == kept_records(old(self).bytes(), old(self).position() as int, next, old(self).records_mode()),
            },
            r matches Some(b) ==> old(self).remaining().0 == seq![b.batch().header] + final(self).remaining().0
                && old(self).remaining().1 == final(self).remaining().1,
            r is None ==> old(self).remaining().0 == Seq::<BatchHeader>::empty() && final(self).error()
                == old(self).remaining().1,
            r is Some ==> final(self).bytes().len() - final(self).position() < old(self).bytes().len() - old(self).position(),
    {
        proof {
            use_type_invariant(&*self);
        }
        if self.invalid.is_some() {
            return None;
        }
        match FileBatchPos::from(&self.data, self.pos, self.mode) {
            Ok(Some(batch)) => {
                let total = batch.total_len();
                self.pos = self.pos + total;
                assert(scan(self.data@, old(self).pos as int).0 =~= seq![batch.batch().header] + scan(self.data@, self.pos as int).0);
                assert(scan_records(self.data@, old(self).pos as int, self.mode) =~= seq![batch.batch().records@]
                    + scan_records(self.data@, self.pos as int, self.mode));
                Some(batch)
            },
            Ok(None) => None,
            Err(e) => {
                self.invalid = Some(e);
                None
            },
        }
    }

    /// Reads every batch left, until the end of the file or an error.
    pub fn read_all(&mut self) -> (r: Vec<FileBatchPos>)
        ensures
            final(self).bytes() == old(self).bytes(),
            headers_of(r@) == old(self).remaining().0,
            records_of(r@) == old(self).remaining_records(),
            final(self).error() == old(self).remaining().1,
    {
        let mut r: Vec<FileBatchPos> = Vec::new();
        loop
            invariant
                self.bytes() == old(self).bytes(),
                headers_of(r@) + self.remaining().0 == old(self).remaining().0,
                self.remaining().1 == old(self).remaining().1,
                self.records_mode() == old(self).records_mode(),
                records_of(r@) + self.remaining_records() == old(self).remaining_records(),
            ensures
                self.bytes() == old(self).bytes(),
                headers_of(r@) == old(self).remaining().0,
                records_of(r@) == old(self).remaining_records(),
                self.error() == old(self).remaining().1,
            decreases self.bytes().len() - self.position() + (if self.error() is None { 1int } else { 0 }),
        {
            proof {
                use_type_invariant(&*self);
            }
            let ghost before = *self;
            let ghost prev = r@;
            match self.next() {
                Some(b) => {
                    r.push(b);
                    assert(headers_of(r@) =~= headers_of(prev) + seq![b.batch().header]);
                    assert(headers_of(r@) + self.remaining().0 =~= headers_of(prev)
                        + before.remaining().0);
                    assert(records_of(r@) =~= records_of(prev) + seq![b.batch().records@]);
                    assert(records_of(r@) + self.remaining_records() =~= records_of(prev)
                        + before.remaining_records());
                },
                None => {
                    assert(headers_of(r@) =~= headers_of(r@) + before.remaining().0);
                    assert(records_of(r@) =~= records_of(r@) + before.remaining_records());
                    break;
                },
            }
        }
        r
    }
}

proof fn lemma_window_part(s1: Seq<u8>, pa: int, s2: Seq<u8>, pb: int, o: int, w: int)
    requires
        0 <= pa,
        pa + BATCH_FILE_HEADER_SIZE <= s1.len(),
        0 <= pb,
        pb + BATCH_FILE_HEADER_SIZE <= s2.len(),
        s1.subrange(pa, pa + BATCH_FILE_HEADER_SIZE) == s2.subrange(pb, pb + BATCH_FILE_HEADER_SIZE),
        0 <= o,
        0 <= w,
        o + w <= BATCH_FILE_HEADER_SIZE,
    ensures
        s1.subrange(pa + o, pa + o + w) == s2.subrange(pb + o, pb + o + w),
{
    assert(s1.subrange(pa + o, pa + o + w) =~= s1.subrange(pa, pa + BATCH_FILE_HEADER_SIZE).subrange(
        o,
        o + w,
    ));
    assert(s2.subrange(pb + o, pb + o + w) =~= s2.subrange(pb, pb + BATCH_FILE_HEADER_SIZE).subrange(
        o,
        o + w,
    ));
}

/// The header read at a position depends on the 57 bytes there alone.
pub proof fn lemma_header_window(s1: Seq<u8>, pa: int, s2: Seq<u8>, pb: int)
    requires
        0 <= pa,
        pa + BATCH_FILE_HEADER_SIZE <= s1.len(),
        0 <= pb,
        pb + BATCH_FILE_HEADER_SIZE <= s2.len(),
        s1.subrange(pa, pa + BATCH_FILE_HEADER_SIZE) == s2.subrange(pb, pb + BATCH_FILE_HEADER_SIZE),
    ensures
        header_at(s1, pa) == header_at(s2, pb),
{
    lemma_window_part(s1, pa, s2, pb, 0, 8);
    lemma_window_part(s1, pa, s2, pb, 8, 4);
    lemma_window_part(s1, pa, s2, pb, 12, 4);
    lemma_window_part(s1, pa, s2, pb, 16, 1);
    lemma_window_part(s1, pa, s2, pb, 17, 4);
    lemma_window_part(s1, pa, s2, pb, 21, 2);
    lemma_window_part(s1, pa, s2, pb, 23, 4);
    lemma_window_part(s1, pa, s2, pb, 27, 8);
    lemma_window_part(s1, pa, s2, pb, 35, 8);
    lemma_window_part(s1, pa, s2, pb, 43, 8);
    lemma_window_part(s1, pa, s2, pb, 51, 2);
    lemma_window_part(s1, pa, s2, pb, 53, 4);
}

proof fn lemma_truncated_from(good: Seq<u8>, frame: Seq<u8>, cut: int, pos: int)
    requires
        0 <= pos <= good.len(),
        scan(good, pos).1 is None,
        step_at(frame, 0) == ReadStep::Found(header_at(frame, 0), frame.len() as int),
        0 < cut < frame.len(),
    ensures
        scan(good + frame.subrange(0, cut), pos) == (scan(good, pos).0, Some(BatchError::UnexpectedEof)),
    decreases good.len() - pos,
{
    let t = frame.subrange(0, cut);
    let s2 = good + t;
    if pos == good.len() {
        if cut >= BATCH_FILE_HEADER_SIZE {
            assert(s2.subrange(pos, pos + BATCH_FILE_HEADER_SIZE) =~= frame.subrange(
                0,
                BATCH_FILE_HEADER_SIZE as int,
            ));
            lemma_header_window(s2, pos, frame, 0);
        }
    } else {
        match step_at(good, pos) {
            ReadStep::Found(h, next) => {
                assert(s2.subrange(pos, pos + BATCH_FILE_HEADER_SIZE) =~= good.subrange(
                    pos,
                    pos + BATCH_FILE_HEADER_SIZE,
                ));
                lemma_header_window(s2, pos, good, pos);
                lemma_truncated_from(good, frame, cut, next);
            },
            _ => {},
        }
    }
}

/// A batch cut short at the end of a file is never read: every batch before
/// it is, and the reading ends with `UnexpectedEof`. Here `good` is a file
/// that reads to its end without error and `frame` the bytes of one batch.
pub proof fn lemma_truncated_tail(good: Seq<u8>, frame: Seq<u8>, cut: int)
    requires
        scan(good, 0).1 is None,
        step_at(frame, 0) == ReadStep::Found(header_at(frame, 0), frame.len() as int),
        0 < cut < frame.len(),
    ensures
        scan(good + frame.subrange(0, cut), 0) == (scan(good, 0).0, Some(BatchError::UnexpectedEof)),
{
    lemma_truncated_from(good, frame, cut, 0);
}

/// The bytes of a whole batch on disk.
pub open spec fn batch_bytes(h: BatchHeader, records: Seq<u8>) -> Seq<u8> {
    header_bytes(h) + records
}

/// An encoded batch reads back as one whole frame.
pub proof fn lemma_batch_frame(h: BatchHeader, records: Seq<u8>)
    requires
        header_valid(h),
        h.batch_len == BATCH_HEADER_SIZE + records.len(),
    ensures
        batch_bytes(h, records).len() == total_len_of(h),
        step_at(batch_bytes(h, records), 0) == ReadStep::Found(h, total_len_of(h)),
        header_at(batch_bytes(h, records), 0) == h,
{
    lemma_header_round_trip(seq![], h, records);
    assert(seq![] + header_bytes(h) + records =~= batch_bytes(h, records));
}

pub(crate) proof fn lemma_scan_append_from(good: Seq<u8>, frame: Seq<u8>, pos: int)
    requires
        0 <= pos <= good.len(),
        scan(good, pos).1 is None,
        step_at(frame, 0) == ReadStep::Found(header_at(frame, 0), frame.len() as int),
    ensures
        scan(good + frame, pos) == (scan(good, pos).0.push(header_at(frame, 0)), None::<BatchError>),
    decreases good.len() - pos,
{
    let s2 = good + frame;
    if pos == good.len() {
        assert(s2.subrange(pos, pos + BATCH_FILE_HEADER_SIZE) =~= frame.subrange(
            0,
            BATCH_FILE_HEADER_SIZE as int,
        ));
        lemma_header_window(s2, pos, frame, 0);
        let next = pos + frame.len();
        assert(step_at(s2, next) == ReadStep::End);
        assert(scan(s2, next) == (Seq::<BatchHeader>::empty(), None::<BatchError>));
        assert(scan(s2, pos).0 =~= seq![header_at(frame, 0)]);
        assert(scan(good, pos).0 =~= Seq::<BatchHeader>::empty());
    } else {
        match step_at(good, pos) {
            ReadStep::Found(h, next) => {
                assert(s2.subrange(pos, pos + BATCH_FILE_HEADER_SIZE) =~= good.subrange(
                    pos,
                    pos + BATCH_FILE_HEADER_SIZE,
                ));
                lemma_header_window(s2, pos, good, pos);
                lemma_scan_append_from(good, frame, next);
                assert(scan(s2, pos).0 =~= scan(good, pos).0.push(header_at(frame, 0)));
            },
            _ => {},
        }
    }
}

pub(crate) proof fn lemma_scan_records_append_from(good: Seq<u8>, frame: Seq<u8>, pos: int)
    requires
        0 <= pos <= good.len(),
        scan(good, pos).1 is None,
        step_at(frame, 0) == ReadStep::Found(header_at(frame, 0), frame.len() as int),
    ensures
        scan_records(good + frame, pos, RecordsMode::Full) == scan_records(
            good,
            pos,
            RecordsMode::Full,
        ).push(frame.subrange(BATCH_FILE_HEADER_SIZE as int, frame.len() as int)),
    decreases good.len() - pos,
{
    let s2 = good + frame;
    let recs = frame.subrange(BATCH_FILE_HEADER_SIZE as int, frame.len() as int);
    if pos == good.len() {
        assert(s2.subrange(pos, pos + BATCH_FILE_HEADER_SIZE) =~= frame.subrange(
            0,
            BATCH_FILE_HEADER_SIZE as int,
        ));
        lemma_header_window(s2, pos, frame, 0);
        let next = pos + frame.len();
        assert(step_at(s2, next) == ReadStep::End);
        assert(scan_records(s2, next, RecordsMode::Full) =~= Seq::<Seq<u8>>::empty());
        assert(s2.subrange(pos + BATCH_FILE_HEADER_SIZE, next) =~= recs);
        assert(scan_records(s2, pos, RecordsMode::Full) =~= seq![recs]);
        assert(scan_records(good, pos, RecordsMode::Full) =~= Seq::<Seq<u8>>::empty());
    } else {
        match step_at(good, pos) {
            ReadStep::Found(h, next) => {
                assert(s2.subrange(pos, pos + BATCH_FILE_HEADER_SIZE) =~= good.subrange(
                    pos,
                    pos + BATCH_FILE_HEADER_SIZE,
                ));
                lemma_header_window(s2, pos, good, pos);
                lemma_scan_records_append_from(good, frame, next);
                assert(s2.subrange(pos + BATCH_FILE_HEADER_SIZE, next) =~= good.subrange(
                    pos + BATCH_FILE_HEADER_SIZE,
                    next,
                ));
                assert(scan_records(s2, pos, RecordsMode::Full) =~= scan_records(
                    good,
                    pos,
                    RecordsMode::Full,
                ).push(recs));
            },
            _ => {},
        }
    }
}

/// Appending a whole batch to a file that reads cleanly adds exactly that
/// batch at the end of what is read.
pub proof fn lemma_scan_append(good: Seq<u8>, frame: Seq<u8>)
    requires
        scan(good, 0).1 is None,
        step_at(frame, 0) == ReadStep::Found(header_at(frame, 0), frame.len() as int),
    ensures
        scan(good + frame, 0) == (scan(good, 0).0.push(header_at(frame, 0)), None::<BatchError>),
{
    lemma_scan_append_from(good, frame, 0);
}

/// Every batch that a reading yields has a valid header.
pub proof fn lemma_scan_valid(s: Seq<u8>, pos: int)
    ensures
        forall|i: int| 0 <= i < scan(s, pos).0.len() ==> header_valid(#[trigger] scan(s, pos).0[i]),
    decreases s.len() - pos,
{
    match step_at(s, pos) {
        ReadStep::Found(h, next) => {
            if next > pos && pos < s.len() {
                lemma_scan_valid(s, next);
                let r = scan(s, pos).0;
                assert forall|i: int| 0 <= i < r.len() implies header_valid(#[trigger] r[i]) by {
                    if i > 0 {
                        assert(r[i] == scan(s, next).0[i - 1]);
                    }
                }
            }
        },
        _ => {},
    }
}

proof fn lemma_scan_shift(pre: Seq<u8>, b: Seq<u8>, q: int)
    requires
        0 <= q <= b.len(),
    ensures
        scan(pre + b, pre.len() + q) == scan(b, q),
    decreases b.len() - q,
{
    let s2 = pre + b;
    let p = pre.len() + q;
    if q < b.len() && b.len() - q >= BATCH_FILE_HEADER_SIZE {
        assert(s2.subrange(p, p + BATCH_FILE_HEADER_SIZE) =~= b.subrange(q, q + BATCH_FILE_HEADER_SIZE));
        lemma_header_window(s2, p, b, q);
        match step_at(b, q) {
            ReadStep::Found(h, next) => {
                lemma_scan_shift(pre, b, next);
            },
            _ => {},
        }
    }
}

proof fn lemma_scan_concat_from(good: Seq<u8>, b: Seq<u8>, pos: int)
    requires
        0 <= pos <= good.len(),
        scan(good, pos).1 is None,
    ensures
        scan(good + b, pos) == (scan(good, pos).0 + scan(b, 0).0, scan(b, 0).1),
    decreases good.len() - pos,
{
    let s2 = good + b;
    if pos == good.len() {
        lemma_scan_shift(good, b, 0);
        assert(scan(good, pos).0 =~= Seq::<BatchHeader>::empty());
        assert(scan(good, pos).0 + scan(b, 0).0 =~= scan(b, 0).0);
    } else {
        match step_at(good, pos) {
            ReadStep::Found(h, next) => {
                assert(s2.subrange(pos, pos + BATCH_FILE_HEADER_SIZE) =~= good.subrange(
                    pos,
                    pos + BATCH_FILE_HEADER_SIZE,
                ));
                lemma_header_window(s2, pos, good, pos);
                lemma_scan_concat_from(good, b, next);
                assert(scan(s2, pos).0 =~= scan(good, pos).0 + scan(b, 0).0);
            },
            _ => {},
        }
    }
}

/// Reading two data files back to back, the first of which reads to its
/// end without error, yields the batches of the first and then those of the
/// second, and ends as reading the second alone ends.
pub proof fn lemma_scan_concat(a: Seq<u8>, b: Seq<u8>)
    requires
        scan(a, 0).1 is None,
    ensures
        scan(a + b, 0) == (scan(a, 0).0 + scan(b, 0).0, scan(b, 0).1),
{
    lemma_scan_concat_from(a, b, 0);
}

} // verus!
