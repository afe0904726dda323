//! Segments and the replica log: an ordered run of segments, the last of
//! which takes the appends, with the log end offset and the high watermark.
use vstd::prelude::*;

use crate::batch::{
    records_of, scan_records, batch_bytes, encode_header, header_valid, headers_of, lemma_batch_frame, lemma_scan_append,
    scan, total_len_of, Batch, BatchHeader, FileBatchPos, FileBatchStream, RecordsMode,
    BATCH_FILE_HEADER_SIZE, BATCH_HEADER_SIZE,
};
use crate::Offset;

verus! {

/// The offset after the batches `hs` of a segment based at `base`.
pub open spec fn end_of(base: int, hs: Seq<BatchHeader>) -> int {
    if hs.len() == 0 {
        base
    } else {
        hs.last().base_offset + hs.last().last_offset_delta + 1
    }
}

/// The batches `hs` follow each other with no gap from `base` on.
pub open spec fn chained(base: int, hs: Seq<BatchHeader>) -> bool
    decreases hs.len(),
{
    if hs.len() == 0 {
        true
    } else {
        chained(base, hs.drop_last()) && hs.last().base_offset == end_of(base, hs.drop_last())
    }
}

/// The header that an append at `end` writes for `h` with `n` record bytes.
pub open spec fn assigned_header(h: BatchHeader, end: int, n: nat) -> BatchHeader {
    BatchHeader { base_offset: end as i64, batch_len: (BATCH_HEADER_SIZE + n) as i32, ..h }
}

/// Appends the bytes of `src`.
pub(crate) fn append_bytes(out: &mut Vec<u8>, src: &Vec<u8>)
    ensures
        final(out)@ == old(out)@ + src@,
{
    let mut i: usize = 0;
    while i < src.len()
        invariant
            i <= src@.len(),
            out@ == old(out)@ + src@.subrange(0, i as int),
        decreases src@.len() - i,
    {
        out.push(src[i]);
        i = i + 1;
        assert(out@ =~= old(out)@ + src@.subrange(0, i as int));
    }
    assert(src@.subrange(0, src@.len() as int) =~= src@);
}

proof fn lemma_end_of_ge(b: int, hs: Seq<BatchHeader>)
    requires
        chained(b, hs),
        forall|i: int| 0 <= i < hs.len() ==> (#[trigger] hs[i]).last_offset_delta >= 0,
    ensures
        end_of(b, hs) >= b,
    decreases hs.len(),
{
    if hs.len() > 0 {
        lemma_end_of_ge(b, hs.drop_last());
        assert(hs[hs.len() - 1] == hs.last());
    }
}

proof fn lemma_chained_front(base: int, hs: Seq<BatchHeader>)
    requires
        chained(base, hs),
        hs.len() > 0,
    ensures
        hs[0].base_offset == base,
        chained(end_of(base, seq![hs[0]]), hs.drop_first()),
        end_of(end_of(base, seq![hs[0]]), hs.drop_first()) == end_of(base, hs),
    decreases hs.len(),
{
    if hs.len() > 1 {
        let front = hs.drop_last();
        lemma_chained_front(base, front);
        assert(front.drop_first() =~= hs.drop_first().drop_last());
        assert(seq![front[0]] =~= seq![hs[0]]);
    } else {
        assert(seq![hs[0]] =~= hs);
        assert(hs.drop_last().len() == 0);
    }
}

/// The data file of one segment, named by its base offset.
pub struct Segment {
    base_offset: Offset,
    end_offset: Offset,
    data: Vec<u8>,
    /// sparse index: offset relative to the base, and file position
    index: Vec<(u32, u32)>,
}

/// Bytes of one index entry on disk.
pub const INDEX_ENTRY_SIZE: usize = 8;

/// An index entry of a segment from `base` to `end` over the file `s`: it
/// points at a batch from which reading yields batches in order, the first
/// based at `base + rel`, up to the end offset.
pub open spec fn entry_ok(base: int, end: int, s: Seq<u8>, e: (u32, u32)) -> bool {
    &&& e.1 <= s.len()
    &&& scan(s, e.1 as int).1 is None
    &&& scan(s, e.1 as int).0.len() > 0
    &&& chained(base + e.0, scan(s, e.1 as int).0)
    &&& end_of(base + e.0, scan(s, e.1 as int).0) == end
}

proof fn lemma_entry_after_append(base: int, end: int, s: Seq<u8>, frame: Seq<u8>, e: (u32, u32))
    requires
        entry_ok(base, end, s, e),
        crate::batch::step_at(frame, 0) == crate::batch::ReadStep::Found(
            crate::batch::header_at(frame, 0),
            frame.len() as int,
        ),
        crate::batch::header_at(frame, 0).base_offset == end,
    ensures
        entry_ok(
            base,
            end + crate::batch::header_at(frame, 0).last_offset_delta + 1,
            s + frame,
            e,
        ),
{
    crate::batch::lemma_scan_append_from(s, frame, e.1 as int);
    let hs_e = scan(s + frame, e.1 as int).0;
    assert(hs_e.drop_last() =~= scan(s, e.1 as int).0);
}

proof fn lemma_entry_new(base: int, end: int, s: Seq<u8>, frame: Seq<u8>, rel: u32)
    requires
        s.len() <= u32::MAX,
        base + rel == end,
        crate::batch::step_at(frame, 0) == crate::batch::ReadStep::Found(
            crate::batch::header_at(frame, 0),
            frame.len() as int,
        ),
        crate::batch::header_at(frame, 0).base_offset == end,
    ensures
        entry_ok(
            base,
            end + crate::batch::header_at(frame, 0).last_offset_delta + 1,
            s + frame,
            (rel, s.len() as u32),
        ),
{
    assert(crate::batch::step_at(s, s.len() as int) == crate::batch::ReadStep::End);
    assert(scan(s, s.len() as int) == (Seq::<BatchHeader>::empty(), None::<crate::batch::BatchError>));
    crate::batch::lemma_scan_append_from(s, frame, s.len() as int);
    let h = crate::batch::header_at(frame, 0);
    let hs_new = scan(s + frame, s.len() as int).0;
    assert(hs_new =~= seq![h]);
    assert(chained(base + rel, Seq::<BatchHeader>::empty()));
    assert(hs_new.drop_last() =~= Seq::<BatchHeader>::empty());
    assert(hs_new.last() == h);
}

proof fn lemma_index_push(index: Seq<(u32, u32)>, e: (u32, u32), base: int, end: int, s: Seq<u8>)
    requires
        forall|i: int| 0 <= i < index.len() ==> entry_ok(base, end, s, #[trigger] index[i]),
        forall|i: int, j: int|
            0 <= i < j < index.len() ==> (#[trigger] index[i]).0 < (#[trigger] index[j]).0,
        forall|i: int| 0 <= i < index.len() ==> (#[trigger] index[i]).0 < e.0,
        entry_ok(base, end, s, e),
    ensures
        forall|i: int|
            0 <= i < index.push(e).len() ==> entry_ok(base, end, s, #[trigger] index.push(e)[i]),
        forall|i: int, j: int|
            0 <= i < j < index.push(e).len() ==> (#[trigger] index.push(e)[i]).0 < (
            #[trigger] index.push(e)[j]).0,
{
    let n = index.push(e);
    assert forall|i: int| 0 <= i < n.len() implies entry_ok(base, end, s, #[trigger] n[i]) by {
        if i < index.len() {
            assert(n[i] == index[i]);
        }
    }
    assert forall|i: int, j: int| 0 <= i < j < n.len() implies (#[trigger] n[i]).0 < (
    #[trigger] n[j]).0 by {
        assert(n[i] == index[i]);
        if j < index.len() {
            assert(n[j] == index[j]);
        }
    }
}

proof fn lemma_entry_below_end(base: int, end: int, s: Seq<u8>, e: (u32, u32))
    requires
        entry_ok(base, end, s, e),
    ensures
        base + e.0 < end,
{
    let hs = scan(s, e.1 as int).0;
    crate::batch::lemma_scan_valid(s, e.1 as int);
    assert forall|i: int| 0 <= i < hs.drop_last().len() implies (
    #[trigger] hs.drop_last()[i]).last_offset_delta >= 0 by {
        assert(hs.drop_last()[i] == hs[i]);
        assert(crate::batch::header_valid(hs[i]));
    }
    lemma_end_of_ge(base + e.0, hs.drop_last());
    assert(crate::batch::header_valid(hs[hs.len() - 1]));
}

impl Segment {
    pub closed spec fn base(&self) -> int {
        self.base_offset as int
    }

    pub closed spec fn end(&self) -> int {
        self.end_offset as int
    }

    pub closed spec fn bytes(&self) -> Seq<u8> {
        self.data@
    }

    /// The batches of the data file, in file order.
    pub open spec fn headers(&self) -> Seq<BatchHeader> {
        scan(self.bytes(), 0).0
    }

    /// The record bytes of each batch of the data file, in file order.
    pub open spec fn records(&self) -> Seq<Seq<u8>> {
        scan_records(self.bytes(), 0, RecordsMode::Full)
    }

    /// The file reads to its end without error, its batches follow each
    /// other from the base offset on, and the end offset is the one after
    /// them.
    pub open spec fn wf(&self) -> bool {
        &&& scan(self.bytes(), 0).1 is None
        &&& chained(self.base(), self.headers())
        &&& self.end() == end_of(self.base(), self.headers())
        &&& self.bytes().len() <= u32::MAX
        &&& 0 <= self.base() <= self.end() <= i64::MAX
        &&& forall|i: int|
            0 <= i < self.index_entries().len() ==> entry_ok(
                self.base(),
                self.end(),
                self.bytes(),
                #[trigger] self.index_entries()[i],
            )
        &&& forall|i: int, j: int|
            0 <= i < j < self.index_entries().len() ==> (#[trigger] self.index_entries()[i]).0
                < (#[trigger] self.index_entries()[j]).0
    }

    pub closed spec fn index_entries(&self) -> Seq<(u32, u32)> {
        self.index@
    }

    /// Number of index entries.
    pub fn index_len(&self) -> (r: usize)
        ensures
            r == self.index_entries().len(),
    {
        self.index.len()
    }

    /// An empty segment based at `base_offset`.
    pub fn new(base_offset: Offset) -> (r: Segment)
        requires
            base_offset >= 0,
        ensures
            r.wf(),
            r.base() == base_offset,
            r.end() == base_offset,
            r.bytes() == Seq::<u8>::empty(),
            r.headers() == Seq::<BatchHeader>::empty(),
            r.records() == Seq::<Seq<u8>>::empty(),
            r.index_entries() == Seq::<(u32, u32)>::empty(),
    {
        let r = Segment { base_offset, end_offset: base_offset, data: Vec::new(), index: Vec::new() };
        assert(scan(r.data@, 0).0 =~= Seq::<BatchHeader>::empty());
        assert(r.records() =~= Seq::<Seq<u8>>::empty());
        r
    }

    pub fn get_base_offset(&self) -> (r: Offset)
        ensures
            r == self.base(),
    {
        self.base_offset
    }

    /// The offset that the next append gets.
    pub fn get_end_offset(&self) -> (r: Offset)
        ensures
            r == self.end(),
    {
        self.end_offset
    }

    /// Bytes in the data file.
    pub fn size(&self) -> (r: usize)
        ensures
            r == self.bytes().len(),
    {
        self.data.len()
    }

    /// File position of the batch that holds `offset`; none where the
    /// offset is outside `[base, end)`.
    pub fn find_offset_position(&self, offset: Offset) -> (r: Option<crate::Size>)
        requires
            self.wf(),
        ensures
            r is Some <==> self.base() <= offset < self.end(),
            r matches Some(p) ==> match crate::batch::step_at(self.bytes(), p as int) {
                crate::batch::ReadStep::Found(h, _) => h.base_offset <= offset <= h.base_offset
                    + h.last_offset_delta,
                _ => false,
            },
    {
        if offset < self.base_offset {
            return None;
        }
        let target = offset - self.base_offset;
        // last index entry at or below the offset, by binary search
        let mut lo: usize = 0;
        let mut hi: usize = self.index.len();
        while lo < hi
            invariant
                lo <= hi <= self.index_entries().len(),
                lo > 0 ==> self.index_entries()[lo - 1].0 <= target,
            decreases hi - lo,
        {
            let mid = lo + (hi - lo) / 2;
            if self.index[mid].0 as i64 <= target {
                lo = mid + 1;
            } else {
                hi = mid;
            }
        }
        let mut pos: crate::Size = 0;
        let ghost mut cur: int = self.base();
        if lo > 0 {
            let e = self.index[lo - 1];
            assert(entry_ok(self.base(), self.end(), self.bytes(), self.index_entries()[lo - 1]));
            pos = e.1;
            proof {
                cur = self.base() + e.0;
            }
        }
        loop
            invariant
                self.wf(),
                pos <= self.bytes().len(),
                self.base() <= cur <= offset,
                scan(self.bytes(), pos as int).1 is None,
                chained(cur, scan(self.bytes(), pos as int).0),
                end_of(cur, scan(self.bytes(), pos as int).0) == self.end(),
            decreases self.bytes().len() - pos,
        {
            let ghost hs = scan(self.bytes(), pos as int).0;
            proof {
                crate::batch::lemma_scan_valid(self.bytes(), pos as int);
            }
            match FileBatchPos::from(&self.data, pos, RecordsMode::HeaderOnly) {
                Ok(Some(b)) => {
                    let base = b.get_base_offset();
                    let last = b.get_last_offset();
                    proof {
                        assert(hs[0] == b.batch().header);
                        lemma_chained_front(cur, hs);
                        assert(seq![hs[0]].last() == hs[0]);
                        assert(end_of(cur, seq![hs[0]]) == last + 1);
                        assert forall|i: int| 0 <= i < hs.drop_first().len() implies (
                        #[trigger] hs.drop_first()[i]).last_offset_delta >= 0 by {
                            assert(hs.drop_first()[i] == hs[i + 1]);
                            assert(crate::batch::header_valid(hs[i + 1]));
                        }
                        lemma_end_of_ge(last + 1, hs.drop_first());
                    }
                    if offset <= last {
                        return Some(pos);
                    }
                    let total = b.total_len();
                    proof {
                        assert(hs.drop_first() =~= scan(self.bytes(), pos + total).0);
                        cur = last + 1;
                    }
                    pos = pos + total;
                },
                _ => {
                    proof {
                        assert(hs.len() == 0);
                    }
                    return None;
                },
            }
        }
    }

    /// A stream over the batches of the data file, from its start.
    pub fn open_batch_stream(&self, mode: RecordsMode) -> (r: FileBatchStream)
        requires
            self.wf(),
        ensures
            r.bytes() == self.bytes(),
            r.position() == 0,
            r.error() is None,
            r.records_mode() == mode,
    {
        let data = self.data.clone();
        assert(data@ =~= self.data@);
        FileBatchStream::new(data, mode)
    }

    fn push_frame(&mut self, h: &BatchHeader, records: &Vec<u8>)
        requires
            old(self).end() + h.last_offset_delta + 1 <= i64::MAX,
            h.last_offset_delta >= 0,
        ensures
            final(self).bytes() == old(self).bytes() + batch_bytes(*h, records@),
            final(self).end() == old(self).end() + h.last_offset_delta + 1,
            final(self).base() == old(self).base(),
            final(self).index_entries() == old(self).index_entries(),
    {
        encode_header(h, &mut self.data);
        append_bytes(&mut self.data, records);
        assert(self.data@ =~= old(self).data@ + batch_bytes(*h, records@));
        self.end_offset = self.end_offset + h.last_offset_delta as i64 + 1;
    }

    fn push_index_entry(&mut self, e: (u32, u32))
        ensures
            final(self).index_entries() == old(self).index_entries().push(e),
            final(self).bytes() == old(self).bytes(),
            final(self).end() == old(self).end(),
            final(self).base() == old(self).base(),
    {
        self.index.push(e);
    }

    /// Writes `batch` at the end of the file with the segment's end offset as
    /// its base offset, and returns the new end offset.
    pub fn append_batch(&mut self, batch: &Batch, index_interval_bytes: u32) -> (r: Offset)
        requires
            old(self).wf(),
            batch.header.last_offset_delta >= 0,
            old(self).end() + batch.header.last_offset_delta < i64::MAX,
            batch.records@.len() + BATCH_HEADER_SIZE <= i32::MAX,
            old(self).bytes().len() + BATCH_FILE_HEADER_SIZE + batch.records@.len() <= u32::MAX,
        ensures
            final(self).wf(),
            final(self).base() == old(self).base(),
            final(self).headers() == old(self).headers().push(
                assigned_header(batch.header, old(self).end(), batch.records@.len()),
            ),
            final(self).bytes() == old(self).bytes() + batch_bytes(
                assigned_header(batch.header, old(self).end(), batch.records@.len()),
                batch.records@,
            ),
            r == final(self).end(),
            r == old(self).end() + batch.header.last_offset_delta + 1,
            final(self).index_entries().len() <= old(self).index_entries().len() + 1,
            final(self).records() == old(self).records().push(batch.records@),
    {
        let h = BatchHeader {
            base_offset: self.end_offset,
            batch_len: (BATCH_HEADER_SIZE + batch.records.len()) as i32,
            ..batch.header
        };
        let ghost frame = batch_bytes(h, batch.records@);
        let ghost old_index = self.index@;
        proof {
            assert(header_valid(h));
            lemma_batch_frame(h, batch.records@);
            lemma_scan_append(self.data@, frame);
            crate::batch::lemma_scan_records_append_from(self.data@, frame, 0);
            assert(frame.subrange(BATCH_FILE_HEADER_SIZE as int, frame.len() as int) =~= batch.records@);
        }
        let at = self.data.len();
        let rel = self.end_offset - self.base_offset;
        let n = self.index.len();
        if n > 0 {
            assert(entry_ok(self.base(), self.end(), self.bytes(), self.index_entries()[n - 1]));
        }
        let due = n == 0 || at - self.index[n - 1].1 as usize >= index_interval_bytes as usize;
        self.push_frame(&h, &batch.records);
        proof {
            let hs = self.headers();
            assert(hs.drop_last() =~= old(self).headers());
            assert forall|i: int| 0 <= i < self.index_entries().len() implies entry_ok(
                self.base(),
                self.end(),
                self.bytes(),
                #[trigger] self.index_entries()[i],
            ) by {
                let e = self.index_entries()[i];
                assert(entry_ok(old(self).base(), old(self).end(), old(self).bytes(), e));
                lemma_entry_after_append(old(self).base(), old(self).end(), old(self).bytes(), frame, e);
            }
        }
        if due && rel <= u32::MAX as i64 {
            proof {
                lemma_entry_new(old(self).base(), old(self).end(), old(self).bytes(), frame, rel as u32);
                assert forall|i: int| 0 <= i < old_index.len() implies (#[trigger] old_index[i]).0 < rel by {
                    lemma_entry_below_end(old(self).base(), old(self).end(), old(self).bytes(), old_index[i]);
                }
            }
            self.push_index_entry((rel as u32, at as u32));
            proof {
                lemma_index_push(old_index, (rel as u32, at as u32), self.base(), self.end(), self.bytes());
            }
        }
        self.end_offset
    }
}

/// Why an append was refused.
#[derive(Clone, Copy, Debug, PartialEq, Eq, Structural)]
pub enum AppendError {
    /// the batch claims a negative last offset delta
    InvalidBatch,
    /// the batch's last offset would not fit in an offset
    OffsetOverflow,
    /// the batch does not fit in a segment's data file
    TooLarge,
}

/// The headers of `segs`, one segment after the other.
pub open spec fn headers_of_segments(segs: Seq<Segment>) -> Seq<BatchHeader>
    decreases segs.len(),
{
    if segs.len() == 0 {
        seq![]
    } else {
        headers_of_segments(segs.drop_last()) + segs.last().headers()
    }
}

/// Sum of `1 + last_offset_delta` over `batches`: how far appending them
/// moves the log end offset.
pub open spec fn offsets_taken(batches: Seq<Batch>) -> int
    decreases batches.len(),
{
    if batches.len() == 0 {
        0
    } else {
        offsets_taken(batches.drop_last()) + batches.last().header.last_offset_delta + 1
    }
}

/// The record bytes of `segs`, one segment after the other.
pub open spec fn records_of_segments(segs: Seq<Segment>) -> Seq<Seq<u8>>
    decreases segs.len(),
{
    if segs.len() == 0 {
        seq![]
    } else {
        records_of_segments(segs.drop_last()) + segs.last().records()
    }
}

/// At least one segment, each well formed and starting where the one
/// before ends.
pub open spec fn segments_wf(segs: Seq<Segment>) -> bool {
    &&& segs.len() >= 1
    &&& forall|i: int| 0 <= i < segs.len() ==> (#[trigger] segs[i]).wf()
    &&& forall|i: int| 0 < i < segs.len() ==> (#[trigger] segs[i]).base() == segs[i - 1].end()
}

proof fn lemma_replace_last(segs: Seq<Segment>, last: Segment)
    requires
        segments_wf(segs),
        last.wf(),
        last.base() == segs.last().base(),
    ensures
        segments_wf(segs.drop_last().push(last)),
        segs.drop_last().push(last)[0].base() == segs[0].base(),
        headers_of_segments(segs.drop_last().push(last)) == headers_of_segments(segs.drop_last())
            + last.headers(),
        records_of_segments(segs.drop_last().push(last)) == records_of_segments(segs.drop_last())
            + last.records(),
{
    let n = segs.drop_last().push(last);
    assert(n.drop_last() =~= segs.drop_last());
    assert forall|i: int| 0 < i < n.len() implies (#[trigger] n[i]).base() == n[i - 1].end() by {
        if i < n.len() - 1 {
            assert(n[i] == segs[i]);
        }
    }
}

proof fn lemma_push_empty(segs: Seq<Segment>, seg: Segment)
    requires
        segments_wf(segs),
        seg.wf(),
        seg.base() == segs.last().end(),
        seg.headers() == Seq::<BatchHeader>::empty(),
        seg.records() == Seq::<Seq<u8>>::empty(),
    ensures
        segments_wf(segs.push(seg)),
        segs.push(seg)[0].base() == segs[0].base(),
        headers_of_segments(segs.push(seg)) == headers_of_segments(segs),
        records_of_segments(segs.push(seg)) == records_of_segments(segs),
{
    let n = segs.push(seg);
    assert(n.drop_last() =~= segs);
    assert(headers_of_segments(n) =~= headers_of_segments(segs));
    assert(records_of_segments(n) =~= records_of_segments(segs));
}

/// Record bytes of a sequence of batches.
pub open spec fn batch_records(v: Seq<Batch>) -> Seq<Seq<u8>> {
    v.map_values(|b: Batch| b.records@)
}

/// The headers that appending `bs` in order to a log at `start` writes.
pub open spec fn assigned_seq(start: int, bs: Seq<Batch>) -> Seq<BatchHeader>
    decreases bs.len(),
{
    if bs.len() == 0 {
        seq![]
    } else {
        assigned_seq(start, bs.drop_last()).push(
            assigned_header(
                bs.last().header,
                start + offsets_taken(bs.drop_last()),
                bs.last().records@.len(),
            ),
        )
    }
}

/// Limits of a replica log's segments.
#[derive(Debug, Clone, Copy, PartialEq, Eq, Structural)]
pub struct LogConfig {
    /// the active segment rolls once its data file is larger
    pub segment_max_bytes: u32,
    /// the active segment rolls once its index file is larger
    pub index_max_bytes: u32,
    /// data bytes written between two index entries, at least
    pub index_interval_bytes: u32,
}

/// The log of one partition replica.
pub struct ReplicaLog {
    segments: Vec<Segment>,
    hw: Offset,
    config: LogConfig,
}

impl ReplicaLog {
    pub closed spec fn segs(&self) -> Seq<Segment> {
        self.segments@
    }

    /// Log end offset: the offset that the next appended batch gets.
    pub closed spec fn leo_spec(&self) -> int {
        self.segments@.last().end()
    }

    pub closed spec fn hw_spec(&self) -> int {
        self.hw as int
    }

    pub closed spec fn base_spec(&self) -> int {
        self.segments@[0].base()
    }

    pub closed spec fn config_spec(&self) -> LogConfig {
        self.config
    }

    /// Why appending `batch` now is refused, if it is.
    pub open spec fn refusal(&self, batch: Batch) -> Option<AppendError> {
        if batch.header.last_offset_delta < 0 {
            Some(AppendError::InvalidBatch)
        } else if self.leo_spec() + batch.header.last_offset_delta >= i64::MAX {
            Some(AppendError::OffsetOverflow)
        } else if batch.records@.len() + BATCH_HEADER_SIZE > i32::MAX
            || self.segs().last().bytes().len() + BATCH_FILE_HEADER_SIZE + batch.records@.len()
            > u32::MAX {
            Some(AppendError::TooLarge)
        } else {
            None
        }
    }

    /// The record bytes of every batch of the log, segment after segment.
    pub open spec fn log_records(&self) -> Seq<Seq<u8>> {
        records_of_segments(self.segs())
    }

    /// Every batch of the log, segment after segment.
    pub open spec fn log_headers(&self) -> Seq<BatchHeader> {
        headers_of_segments(self.segs())
    }

    /// At least one segment, each well formed, each starting where the one
    /// before ends, and `base <= HW <= LEO`.
    pub open spec fn wf(&self) -> bool {
        &&& segments_wf(self.segs())
        &&& self.base_spec() <= self.hw_spec() <= self.leo_spec()
        &&& self.leo_spec() == self.segs().last().end()
    }

    /// An empty log whose first batch gets `base_offset`.
    pub fn new(base_offset: Offset, config: LogConfig) -> (r: ReplicaLog)
        requires
            base_offset >= 0,
        ensures
            r.wf(),
            r.leo_spec() == base_offset,
            r.hw_spec() == base_offset,
            r.base_spec() == base_offset,
            r.segs().len() == 1,
            r.log_headers() == Seq::<BatchHeader>::empty(),
            r.log_records() == Seq::<Seq<u8>>::empty(),
            r.config_spec() == config,
    {
        let mut segments: Vec<Segment> = Vec::new();
        segments.push(Segment::new(base_offset));
        let r = ReplicaLog { segments, hw: base_offset, config };
        assert(headers_of_segments(r.segs()) =~= headers_of_segments(r.segs().drop_last()) + r.segs().last().headers());
        assert(records_of_segments(r.segs()) =~= records_of_segments(r.segs().drop_last()) + r.segs().last().records());
        r
    }

    pub fn leo(&self) -> (r: Offset)
        requires
            self.wf(),
        ensures
            r == self.leo_spec(),
    {
        let n = self.segments.len();
        self.segments[n - 1].get_end_offset()
    }

    pub fn hw(&self) -> (r: Offset)
        ensures
            r == self.hw_spec(),
    {
        self.hw
    }

    /// Number of segments, sealed ones and the active one.
    pub fn segment_count(&self) -> (r: usize)
        ensures
            r == self.segs().len(),
    {
        self.segments.len()
    }

    /// Raises the high watermark to `hw`. Refused, with nothing changed,
    /// where `hw` is below the current one or above the log end offset.
    pub fn update_hw(&mut self, hw: Offset) -> (r: bool)
        requires
            old(self).wf(),
        ensures
            final(self).wf(),
            r == (old(self).hw_spec() <= hw <= old(self).leo_spec()),
            final(self).hw_spec() == (if r {
                hw as int
            } else {
                old(self).hw_spec()
            }),
            final(self).segs() == old(self).segs(),
            final(self).config_spec() == old(self).config_spec(),
    {
        if hw < self.hw || hw > self.leo() {
            return false;
        }
        self.hw = hw;
        true
    }

    /// Appends `batch` to the active segment with the log end offset as its
    /// base offset, rolls the segment where its data file or its index has
    /// grown past the limit, and returns the new log end offset.
    pub fn append(&mut self, batch: &Batch) -> (r: Result<Offset, AppendError>)
        requires
            old(self).wf(),
        ensures
            final(self).wf(),
            final(self).hw_spec() == old(self).hw_spec(),
            final(self).base_spec() == old(self).base_spec(),
            final(self).config_spec() == old(self).config_spec(),
            batch.header.last_offset_delta < 0 <==> r == Err::<Offset, AppendError>(
                AppendError::InvalidBatch,
            ),
            batch.header.last_offset_delta >= 0 && old(self).leo_spec()
                + batch.header.last_offset_delta >= i64::MAX <==> r == Err::<Offset, AppendError>(
                AppendError::OffsetOverflow,
            ),
            batch.header.last_offset_delta >= 0 && old(self).leo_spec()
                + batch.header.last_offset_delta < i64::MAX && (batch.records@.len() + BATCH_HEADER_SIZE
                > i32::MAX || old(self).segs().last().bytes().len() + BATCH_FILE_HEADER_SIZE
                + batch.records@.len() > u32::MAX) <==> r == Err::<Offset, AppendError>(
                AppendError::TooLarge,
            ),
            r is Ok <==> old(self).refusal(*batch) is None,
            r matches Err(e) ==> old(self).refusal(*batch) == Some(e),
            r is Err ==> final(self).segs() == old(self).segs(),
            r matches Ok(leo) ==> {
                &&& leo == old(self).leo_spec() + batch.header.last_offset_delta + 1
                &&& final(self).leo_spec() == leo
                &&& final(self).log_headers() == old(self).log_headers().push(
                    assigned_header(batch.header, old(self).leo_spec(), batch.records@.len()),
                )
                &&& final(self).log_records() == old(self).log_records().push(batch.records@)
            },
    {
        let delta = batch.header.last_offset_delta;
        if delta < 0 {
            return Err(AppendError::InvalidBatch);
        }
        let leo = self.leo();
        if leo >= i64::MAX - delta as i64 {
            return Err(AppendError::OffsetOverflow);
        }
        let n = self.segments.len();
        let size = self.segments[n - 1].size();
        assert(self.segs()[n - 1].wf());
        if batch.records.len() > (i32::MAX as usize) - BATCH_HEADER_SIZE || size > (u32::MAX as usize)
            - BATCH_FILE_HEADER_SIZE || batch.records.len() > (u32::MAX as usize) - BATCH_FILE_HEADER_SIZE
            - size {
            return Err(AppendError::TooLarge);
        }
        let ghost old_segs = self.segments@;
        let mut active = self.segments.pop().unwrap();
        assert(self.segments@ =~= old_segs.drop_last());
        assert(old_segs.last().wf());
        let new_leo = active.append_batch(batch, self.config.index_interval_bytes);
        let grown = active.size() > self.config.segment_max_bytes as usize || active.index_len() > (
        self.config.index_max_bytes as usize) / INDEX_ENTRY_SIZE;
        self.segments.push(active);
        proof {
            lemma_replace_last(old_segs, active);
            assert(self.segments@ =~= old_segs.drop_last().push(active));
            assert(headers_of_segments(old_segs) == headers_of_segments(old_segs.drop_last())
                + old_segs.last().headers());
            assert(headers_of_segments(self.segs()) =~= headers_of_segments(old_segs).push(
                assigned_header(batch.header, leo as int, batch.records@.len()),
            ));
            assert(records_of_segments(old_segs) == records_of_segments(old_segs.drop_last())
                + old_segs.last().records());
            assert(records_of_segments(self.segs()) =~= records_of_segments(old_segs).push(
                batch.records@,
            ));
        }
        if grown {
            let ghost before = self.segments@;
            let fresh = Segment::new(new_leo);
            self.segments.push(fresh);
            proof {
                lemma_push_empty(before, fresh);
            }
        }
        Ok(new_leo)
    }

    /// Appends `batches` in order, stopping at the first that is refused,
    /// and returns the new log end offset.
    pub fn append_batches(&mut self, batches: &Vec<Batch>) -> (r: Result<Offset, AppendError>)
        requires
            old(self).wf(),
        ensures
            final(self).wf(),
            final(self).hw_spec() == old(self).hw_spec(),
            final(self).base_spec() == old(self).base_spec(),
            r matches Ok(leo) ==> leo == old(self).leo_spec() + offsets_taken(batches@)
                && final(self).leo_spec() == leo && final(self).log_headers() == old(self).log_headers()
                + assigned_seq(old(self).leo_spec(), batches@) && final(self).log_records() == old(
                self,
            ).log_records() + batch_records(batches@),
            r matches Err(e) ==> exists|k: int|
                0 <= k < batches@.len() && final(self).refusal(#[trigger] batches@[k]) == Some(e)
                    && final(self).leo_spec() == old(self).leo_spec() + offsets_taken(
                    batches@.subrange(0, k),
                ) && final(self).log_headers() == old(self).log_headers() + assigned_seq(
                    old(self).leo_spec(),
                    batches@.subrange(0, k),
                ),
    {
        let mut i: usize = 0;
        assert(old(self).log_headers() + assigned_seq(old(self).leo_spec(), batches@.subrange(0, 0))
            =~= old(self).log_headers());
        assert(old(self).log_records() + batch_records(batches@.subrange(0, 0)) =~= old(
            self,
        ).log_records());
        while i < batches.len()
            invariant
                i <= batches@.len(),
                self.wf(),
                self.hw_spec() == old(self).hw_spec(),
                self.base_spec() == old(self).base_spec(),
                self.leo_spec() == old(self).leo_spec() + offsets_taken(batches@.subrange(0, i as int)),
                self.log_headers() == old(self).log_headers() + assigned_seq(
                    old(self).leo_spec(),
                    batches@.subrange(0, i as int),
                ),
                self.log_records() == old(self).log_records() + batch_records(
                    batches@.subrange(0, i as int),
                ),
            decreases batches@.len() - i,
        {
            let ghost before = *self;
            let res = self.append(&batches[i]);
            if let Err(e) = res {
                assert(self.log_headers() == before.log_headers());
                assert(self.refusal(batches@[i as int]) == Some(e));
                return Err(e);
            }
            proof {
                let sub = batches@.subrange(0, i + 1);
                assert(sub.drop_last() =~= batches@.subrange(0, i as int));
                assert(sub.last() == batches@[i as int]);
                assert(self.log_headers() =~= old(self).log_headers() + assigned_seq(
                    old(self).leo_spec(),
                    sub,
                ));
                assert(batch_records(sub) =~= batch_records(batches@.subrange(0, i as int)).push(
                    batches@[i as int].records@,
                ));
                assert(self.log_records() =~= old(self).log_records() + batch_records(sub));
            }
            i = i + 1;
        }
        assert(batches@.subrange(0, i as int) =~= batches@);
        Ok(self.leo())
    }

    /// Reads every batch of the log, segment after segment, each from the
    /// start of its data file.
    pub fn read_all_batches(&self, mode: RecordsMode) -> (r: Vec<FileBatchPos>)
        requires
            self.wf(),
        ensures
            headers_of(r@) == self.log_headers(),
            mode == RecordsMode::Full ==> records_of(r@) == self.log_records(),
    {
        let mut r: Vec<FileBatchPos> = Vec::new();
        let mut i: usize = 0;
        while i < self.segments.len()
            invariant
                i <= self.segs().len(),
                segments_wf(self.segs()),
                headers_of(r@) == headers_of_segments(self.segs().subrange(0, i as int)),
                mode == RecordsMode::Full ==> records_of(r@) == records_of_segments(
                    self.segs().subrange(0, i as int),
                ),
            decreases self.segs().len() - i,
        {
            assert(self.segs()[i as int].wf());
            let mut stream = self.segments[i].open_batch_stream(mode);
            let mut batches = stream.read_all();
            let ghost prev = r@;
            let ghost got = batches@;
            r.append(&mut batches);
            assert(headers_of(r@) =~= headers_of(prev) + headers_of(got));
            assert(records_of(r@) =~= records_of(prev) + records_of(got));
            assert(self.segs().subrange(0, i + 1).drop_last() =~= self.segs().subrange(0, i as int));
            i = i + 1;
        }
        assert(self.segs().subrange(0, i as int) =~= self.segs());
        r
    }
}

proof fn lemma_chained_concat(b: int, hs1: Seq<BatchHeader>, hs2: Seq<BatchHeader>)
    requires
        chained(b, hs1),
        chained(end_of(b, hs1), hs2),
    ensures
        chained(b, hs1 + hs2),
        end_of(b, hs1 + hs2) == end_of(end_of(b, hs1), hs2),
    decreases hs2.len(),
{
    if hs2.len() > 0 {
        lemma_chained_concat(b, hs1, hs2.drop_last());
        assert((hs1 + hs2).drop_last() =~= hs1 + hs2.drop_last());
    } else {
        assert(hs1 + hs2 =~= hs1);
    }
}

proof fn lemma_segments_chain(segs: Seq<Segment>)
    requires
        segments_wf(segs),
    ensures
        chained(segs[0].base(), headers_of_segments(segs)),
        end_of(segs[0].base(), headers_of_segments(segs)) == segs.last().end(),
    decreases segs.len(),
{
    let last = segs.last();
    assert(last.wf());
    if segs.len() == 1 {
        assert(segs.drop_last().len() == 0);
        assert(headers_of_segments(segs.drop_last()) == Seq::<BatchHeader>::empty());
        assert(headers_of_segments(segs) =~= last.headers());
    } else {
        let front = segs.drop_last();
        assert(segments_wf(front)) by {
            assert forall|i: int| 0 <= i < front.len() implies (#[trigger] front[i]).wf() by {
                assert(front[i] == segs[i]);
            }
            assert forall|i: int| 0 < i < front.len() implies (#[trigger] front[i]).base()
                == front[i - 1].end() by {
                assert(front[i] == segs[i]);
            }
        }
        lemma_segments_chain(front);
        assert(segs[segs.len() - 1].base() == segs[segs.len() - 2].end());
        lemma_chained_concat(segs[0].base(), headers_of_segments(front), last.headers());
    }
}

/// Read segment after segment, the batches of a log follow each other with
/// no gap and no overlap from the log's base offset to its end offset.
pub proof fn lemma_log_in_order(log: &ReplicaLog)
    requires
        log.wf(),
    ensures
        chained(log.base_spec(), log.log_headers()),
        end_of(log.base_spec(), log.log_headers()) == log.leo_spec(),
{
    lemma_segments_chain(log.segs());
}

/// The data files of `segs` put end to end.
pub open spec fn bytes_of_segments(segs: Seq<Segment>) -> Seq<u8>
    decreases segs.len(),
{
    if segs.len() == 0 {
        seq![]
    } else {
        bytes_of_segments(segs.drop_last()) + segs.last().bytes()
    }
}

proof fn lemma_segments_one_file(segs: Seq<Segment>)
    requires
        forall|i: int| 0 <= i < segs.len() ==> (#[trigger] segs[i]).wf(),
    ensures
        scan(bytes_of_segments(segs), 0) == (headers_of_segments(segs), None::<crate::batch::BatchError>),
    decreases segs.len(),
{
    if segs.len() == 0 {
        assert(crate::batch::step_at(bytes_of_segments(segs), 0) == crate::batch::ReadStep::End);
        assert(headers_of_segments(segs) =~= Seq::<BatchHeader>::empty());
    } else {
        let front = segs.drop_last();
        assert forall|i: int| 0 <= i < front.len() implies (#[trigger] front[i]).wf() by {
            assert(front[i] == segs[i]);
        }
        lemma_segments_one_file(front);
        assert(segs[segs.len() - 1].wf());
        crate::batch::lemma_scan_concat(bytes_of_segments(front), segs.last().bytes());
    }
}

/// Reading the data files of a log end to end, from position 0, yields the
/// same batches as reading its segments one after the other, with no error.
pub proof fn lemma_log_one_file(log: &ReplicaLog)
    requires
        log.wf(),
    ensures
        scan(bytes_of_segments(log.segs()), 0) == (log.log_headers(), None::<crate::batch::BatchError>),
{
    lemma_segments_one_file(log.segs());
}

proof fn lemma_offsets_taken_prefix(bs: Seq<Batch>, k: int)
    requires
        0 <= k <= bs.len(),
        forall|i: int| 0 <= i < bs.len() ==> (#[trigger] bs[i]).header.last_offset_delta >= 0,
    ensures
        0 <= offsets_taken(bs.subrange(0, k)) <= offsets_taken(bs),
    decreases bs.len(),
{
    if k < bs.len() {
        let front = bs.drop_last();
        assert forall|i: int| 0 <= i < front.len() implies (#[trigger] front[i]).header.last_offset_delta
            >= 0 by {
            assert(front[i] == bs[i]);
        }
        lemma_offsets_taken_prefix(front, k);
        assert(front.subrange(0, k) =~= bs.subrange(0, k));
        lemma_offsets_taken_prefix(front, front.len() as int);
        assert(front.subrange(0, front.len() as int) =~= front);
    } else {
        assert(bs.subrange(0, k) =~= bs);
        if bs.len() > 0 {
            let front = bs.drop_last();
            assert forall|i: int| 0 <= i < front.len() implies (
            #[trigger] front[i]).header.last_offset_delta >= 0 by {
                assert(front[i] == bs[i]);
            }
            lemma_offsets_taken_prefix(front, front.len() as int);
            assert(front.subrange(0, front.len() as int) =~= front);
        }
    }
}

/// Appending batches in order from `start`, batch `k` gets the base offset
/// `start` plus `1 + last_offset_delta` summed over the batches before it,
/// and the end offset after all of them is `start + offsets_taken(bs)`.
pub proof fn lemma_assigned_offsets(start: int, bs: Seq<Batch>, k: int)
    requires
        0 <= start,
        0 <= k < bs.len(),
        forall|i: int| 0 <= i < bs.len() ==> (#[trigger] bs[i]).header.last_offset_delta >= 0,
        start + offsets_taken(bs) <= i64::MAX,
    ensures
        assigned_seq(start, bs).len() == bs.len(),
        assigned_seq(start, bs)[k].base_offset == start + offsets_taken(bs.subrange(0, k)),
        assigned_seq(start, bs)[k].last_offset_delta == bs[k].header.last_offset_delta,
    decreases bs.len(),
{
    let front = bs.drop_last();
    assert forall|i: int| 0 <= i < front.len() implies (#[trigger] front[i]).header.last_offset_delta
        >= 0 by {
        assert(front[i] == bs[i]);
    }
    lemma_offsets_taken_prefix(bs, k);
    lemma_offsets_taken_prefix(bs, front.len() as int);
    assert(bs.subrange(0, front.len() as int) =~= front);
    if k < front.len() {
        lemma_assigned_offsets(start, front, k);
        assert(front.subrange(0, k) =~= bs.subrange(0, k));
    } else {
        if front.len() > 0 {
            lemma_assigned_offsets(start, front, 0);
        } else {
            assert(assigned_seq(start, front) =~= Seq::<BatchHeader>::empty());
        }
        assert(bs.subrange(0, k) =~= front);
    }
}

} // verus!
