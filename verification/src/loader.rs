//! Streams checkpoint tensors into device buffers: direct reads of the file into two pinned staging
//! buffers, overlapped with asynchronous copies to the GPU, so loading neither copies from pageable
//! memory nor fills the page cache.
//!
//! An `Uploader` collects what is to be uploaded. The `Streaming` it starts says what to read into
//! which staging buffer, and what to copy to the device once a read is done.
use crate::arithmetic;
use crate::device::{CudaError, DeviceBuffer};
use crate::fault::{Fault, FaultKind};
use vstd::prelude::*;

verus! {

/// Bytes each staging buffer holds, a multiple of the direct-read alignment.
pub const STAGING_BYTES: usize = 0x400_0000;

/// Queued ranges closer than this are read in one pass rather than seeking over the gap.
pub const MERGE_GAP: u64 = 0x40_0000;

/// Why weights could not be loaded.
#[derive(Debug)]
pub enum LoadError {
    Cuda(CudaError),
    Io(Fault),
}

impl LoadError {
    /// The error as a line of text.
    pub fn text(&self) -> (line: String)
        ensures
            match self {
                LoadError::Cuda(error) => line@ == "CUDA error "@ + crate::text::signed_decimal(error.code as int)
                    + ": "@ + error.message@,
                LoadError::Io(error) => line@ == "reading weights: "@ + error.message@,
            },
    {
        match self {
            LoadError::Cuda(error) => error.text(),
            LoadError::Io(error) => {
                let mut line = String::from_str("reading weights: ");
                line.append(error.message.as_str());
                line
            },
        }
    }
}

/// Bytes of the file that belong at an address of the device.
#[derive(Clone, Copy, Debug, PartialEq, Eq, Structural)]
pub struct Upload {
    pub file_offset: u64,
    pub length: usize,
    pub destination: usize,
}

impl Upload {
    /// The file offset just past the bytes.
    pub open spec fn file_end(self) -> int {
        self.file_offset + self.length
    }

    /// The bytes are some, and both their ends have addresses: in the file with room to round up to
    /// `alignment` and to look across a gap, and on the device.
    pub open spec fn valid(self, alignment: int) -> bool {
        &&& self.length > 0
        &&& self.file_end() + alignment + MERGE_GAP <= u64::MAX
        &&& self.destination + self.length <= usize::MAX
    }
}

/// Puts `upload` behind everything that starts no later than it does.
pub open spec fn inserted(sorted: Seq<Upload>, upload: Upload) -> Seq<Upload>
    decreases sorted.len(),
{
    if sorted.len() == 0 || sorted.last().file_offset <= upload.file_offset {
        sorted.push(upload)
    } else {
        inserted(sorted.drop_last(), upload).push(sorted.last())
    }
}

/// The uploads in file order, those of one offset in the order they were queued.
pub open spec fn in_file_order(uploads: Seq<Upload>) -> Seq<Upload>
    decreases uploads.len(),
{
    if uploads.len() == 0 {
        uploads
    } else {
        inserted(in_file_order(uploads.drop_last()), uploads.last())
    }
}

pub open spec fn is_sorted(uploads: Seq<Upload>) -> bool {
    forall|i: int, j: int| 0 <= i <= j < uploads.len() ==> uploads[i].file_offset <= uploads[j].file_offset
}

/// Bytes of all the uploads together.
pub open spec fn total(uploads: Seq<Upload>) -> nat
    decreases uploads.len(),
{
    if uploads.len() == 0 {
        0
    } else {
        total(uploads.drop_last()) + uploads.last().length as nat
    }
}

/// An aligned stretch of the file that is read in one pass, and the end of the data it is read for.
#[derive(Clone, Copy, Debug, PartialEq, Eq, Structural)]
pub struct Span {
    pub start: u64,
    pub end: u64,
    pub data_end: u64,
}

/// The aligned stretches that cover `uploads`, merged across small gaps.
pub open spec fn spans(uploads: Seq<Upload>, alignment: int) -> Seq<Span>
    decreases uploads.len(),
{
    if uploads.len() == 0 {
        Seq::empty()
    } else {
        let before = spans(uploads.drop_last(), alignment);
        let upload = uploads.last();
        let start = arithmetic::round_down(upload.file_offset as int, alignment);
        let end = arithmetic::round_up(upload.file_end(), alignment);
        if before.len() > 0 && start <= before.last().end + MERGE_GAP {
            let last = before.last();
            before.update(
                before.len() - 1,
                Span {
                    start: last.start,
                    end: arithmetic::max(last.end as int, end) as u64,
                    data_end: arithmetic::max(last.data_end as int, upload.file_end()) as u64,
                },
            )
        } else {
            before.push(Span { start: start as u64, end: end as u64, data_end: upload.file_end() as u64 })
        }
    }
}

/// What one staging buffer is filled with at a time, and the end of the data it is read for.
#[derive(Clone, Copy, Debug, PartialEq, Eq, Structural)]
pub struct Chunk {
    pub position: u64,
    pub length: usize,
    pub data_end: u64,
}

/// The chunks of `spans` from `position` in the first of them on.
pub open spec fn chunks(spans: Seq<Span>, position: int) -> Seq<Chunk>
    decreases spans.len(), (if spans.len() == 0 { 0 } else { spans[0].end - position }),
{
    if spans.len() == 0 {
        Seq::empty()
    } else if position >= spans[0].end {
        let rest = spans.drop_first();
        if rest.len() == 0 {
            Seq::empty()
        } else {
            chunks(rest, rest[0].start as int)
        }
    } else {
        let length = arithmetic::min(spans[0].end - position, STAGING_BYTES as int);
        seq![Chunk { position: position as u64, length: length as usize, data_end: spans[0].data_end }] + chunks(
            spans,
            position + length,
        )
    }
}

/// A copy from a staging buffer to the device.
#[derive(Clone, Copy, Debug, PartialEq, Eq, Structural)]
pub struct DeviceCopy {
    /// The device address the bytes go to.
    pub destination: usize,
    /// Where in the staging buffer they lie.
    pub source: usize,
    pub bytes: usize,
}

/// What of `upload` lies in the file between `position` and `end`, as a copy out of a staging buffer
/// that was read from `position`, or nothing.
pub open spec fn piece(upload: Upload, position: int, end: int) -> Seq<DeviceCopy> {
    let first = arithmetic::max(upload.file_offset as int, position);
    let last = arithmetic::min(upload.file_end(), end);
    if first < last {
        seq![
            DeviceCopy {
                destination: (upload.destination + (first - upload.file_offset)) as usize,
                source: (first - position) as usize,
                bytes: (last - first) as usize,
            },
        ]
    } else {
        Seq::empty()
    }
}

/// The copies that bring to the device what of `uploads` lies between `position` and `end`.
pub open spec fn pieces(uploads: Seq<Upload>, position: int, end: int) -> Seq<DeviceCopy>
    decreases uploads.len(),
{
    if uploads.len() == 0 {
        Seq::empty()
    } else {
        pieces(uploads.drop_last(), position, end) + piece(uploads.last(), position, end)
    }
}

proof fn inserted_keeps_order(sorted: Seq<Upload>, upload: Upload)
    requires
        is_sorted(sorted),
    ensures
        is_sorted(inserted(sorted, upload)),
        inserted(sorted, upload).len() == sorted.len() + 1,
        inserted(sorted, upload).to_multiset() =~= sorted.to_multiset().insert(upload),
        sorted.len() > 0 && sorted.last().file_offset > upload.file_offset ==> inserted(sorted, upload).last()
            == sorted.last(),
        sorted.len() > 0 && sorted.last().file_offset <= upload.file_offset ==> inserted(sorted, upload).last()
            == upload,
    decreases sorted.len(),
{
    broadcast use vstd::seq_lib::group_to_multiset_ensures;

    if sorted.len() == 0 || sorted.last().file_offset <= upload.file_offset {
    } else {
        let rest = sorted.drop_last();
        inserted_keeps_order(rest, upload);
        let all = inserted(sorted, upload);
        assert(sorted =~= rest.push(sorted.last()));
        assert(inserted(rest, upload).last().file_offset <= sorted.last().file_offset) by {
            if rest.len() > 0 {
                assert(rest.last() == sorted[sorted.len() - 2]);
            }
        }
        assert forall|i: int, j: int| 0 <= i <= j < all.len() implies all[i].file_offset <= all[j].file_offset by {
            let inner = inserted(rest, upload);
            if i < inner.len() {
                assert(inner[i].file_offset <= inner.last().file_offset);
            }
        }
    }
}

/// File order keeps every upload, and puts none before one that starts earlier.
pub proof fn file_order_is_a_sort(uploads: Seq<Upload>)
    ensures
        is_sorted(in_file_order(uploads)),
        in_file_order(uploads).len() == uploads.len(),
        in_file_order(uploads).to_multiset() =~= uploads.to_multiset(),
    decreases uploads.len(),
{
    broadcast use vstd::seq_lib::group_to_multiset_ensures;

    if uploads.len() > 0 {
        file_order_is_a_sort(uploads.drop_last());
        inserted_keeps_order(in_file_order(uploads.drop_last()), uploads.last());
        assert(uploads =~= uploads.drop_last().push(uploads.last()));
    }
}

proof fn inserted_holds(sorted: Seq<Upload>, upload: Upload, alignment: int)
    requires
        upload.valid(alignment),
        forall|i: int| 0 <= i < sorted.len() ==> (#[trigger] sorted[i]).valid(alignment),
    ensures
        forall|i: int|
            0 <= i < inserted(sorted, upload).len() ==> (#[trigger] inserted(sorted, upload)[i]).valid(alignment),
    decreases sorted.len(),
{
    let all = inserted(sorted, upload);
    if sorted.len() == 0 || sorted.last().file_offset <= upload.file_offset {
        assert forall|i: int| 0 <= i < all.len() implies (#[trigger] all[i]).valid(alignment) by {
            if i < sorted.len() {
                assert(all[i] == sorted[i]);
            }
        }
    } else {
        let rest = sorted.drop_last();
        assert(forall|i: int| 0 <= i < rest.len() ==> #[trigger] rest[i] == sorted[i]);
        inserted_holds(rest, upload, alignment);
        assert forall|i: int| 0 <= i < all.len() implies (#[trigger] all[i]).valid(alignment) by {
            if i < all.len() - 1 {
                assert(all[i] == inserted(rest, upload)[i]);
            } else {
                assert(all[i] == sorted[sorted.len() - 1]);
            }
        }
    }
}

proof fn inserted_total(sorted: Seq<Upload>, upload: Upload)
    ensures
        total(inserted(sorted, upload)) == total(sorted) + upload.length,
    decreases sorted.len(),
{
    if sorted.len() == 0 || sorted.last().file_offset <= upload.file_offset {
        assert(sorted.push(upload).drop_last() =~= sorted);
    } else {
        inserted_total(sorted.drop_last(), upload);
        assert(inserted(sorted, upload).drop_last() =~= inserted(sorted.drop_last(), upload));
    }
}

proof fn file_order_keeps(uploads: Seq<Upload>, alignment: int)
    requires
        forall|i: int| 0 <= i < uploads.len() ==> (#[trigger] uploads[i]).valid(alignment),
    ensures
        forall|i: int|
            0 <= i < in_file_order(uploads).len() ==> (#[trigger] in_file_order(uploads)[i]).valid(alignment),
        total(in_file_order(uploads)) == total(uploads),
    decreases uploads.len(),
{
    if uploads.len() > 0 {
        file_order_keeps(uploads.drop_last(), alignment);
        inserted_holds(in_file_order(uploads.drop_last()), uploads.last(), alignment);
        inserted_total(in_file_order(uploads.drop_last()), uploads.last());
    }
}

/// Whether `span` is aligned, and there is data in it up to its end.
pub open spec fn well_aligned(span: Span, alignment: int) -> bool {
    &&& span.start as int % alignment == 0
    &&& span.end as int % alignment == 0
    &&& span.start < span.data_end <= span.end
    &&& span.end + MERGE_GAP <= u64::MAX
}

/// The stretches are aligned, apart from each other by more than the gap, in file order, and each
/// upload lies in one of them.
pub proof fn spans_cover_the_uploads(uploads: Seq<Upload>, alignment: int)
    requires
        0 < alignment <= STAGING_BYTES,
        is_sorted(uploads),
        forall|i: int| 0 <= i < uploads.len() ==> (#[trigger] uploads[i]).valid(alignment),
    ensures
        forall|k: int|
            0 <= k < spans(uploads, alignment).len() ==> well_aligned(#[trigger] spans(uploads, alignment)[k], alignment),
        forall|k: int, l: int|
            0 <= k < l < spans(uploads, alignment).len() ==> (#[trigger] spans(uploads, alignment)[k]).end + MERGE_GAP < (
            #[trigger] spans(uploads, alignment)[l]).start,
        forall|i: int|
            0 <= i < uploads.len() ==> exists|k: int|
                0 <= k < spans(uploads, alignment).len() && holds(
                    #[trigger] spans(uploads, alignment)[k],
                    #[trigger] uploads[i],
                ),
        uploads.len() > 0 ==> spans(uploads, alignment).len() > 0 && spans(uploads, alignment).last().start
            <= uploads.last().file_offset,
    decreases uploads.len(),
{
    if uploads.len() > 0 {
        let rest = uploads.drop_last();
        let upload = uploads.last();
        assert(forall|i: int| 0 <= i < rest.len() ==> rest[i] == uploads[i]);
        spans_cover_the_uploads(rest, alignment);
        let before = spans(rest, alignment);
        let all = spans(uploads, alignment);
        let start = arithmetic::round_down(upload.file_offset as int, alignment);
        let end = arithmetic::round_up(upload.file_end(), alignment);
        arithmetic::round_down_is_greatest(upload.file_offset as int, alignment);
        arithmetic::round_up_is_least(upload.file_end(), alignment);
        assert(upload.valid(alignment));
        if before.len() > 0 && start <= before.last().end + MERGE_GAP {
            let last = all.last();
            assert(rest.len() > 0);
            assert(rest.last() == uploads[uploads.len() - 2]);
            assert(before.last().start <= upload.file_offset);
            assert forall|i: int| 0 <= i < uploads.len() implies exists|k: int|
                0 <= k < all.len() && holds(#[trigger] all[k], #[trigger] uploads[i]) by {
                if i < rest.len() {
                    let k = choose|k: int| 0 <= k < before.len() && holds(#[trigger] before[k], rest[i]);
                    assert(holds(all[k], uploads[i]));
                } else {
                    assert(holds(all[all.len() - 1], uploads[i]));
                }
            }
        } else {
            assert forall|i: int| 0 <= i < uploads.len() implies exists|k: int|
                0 <= k < all.len() && holds(#[trigger] all[k], #[trigger] uploads[i]) by {
                if i < rest.len() {
                    let k = choose|k: int| 0 <= k < before.len() && holds(#[trigger] before[k], rest[i]);
                    assert(holds(all[k], uploads[i]));
                } else {
                    assert(holds(all[all.len() - 1], uploads[i]));
                }
            }
        }
    }
}

/// Whether `upload` lies in the data of `span`.
pub open spec fn holds(span: Span, upload: Upload) -> bool {
    span.start <= upload.file_offset && upload.file_end() <= span.data_end
}

/// Whether `chunk` was read for what is to be had of it: only the aligned tail past the end of the
/// file may come back short.
pub open spec fn enough(chunk: Chunk, read: int) -> bool {
    chunk.position + read >= arithmetic::min(chunk.data_end as int, chunk.position + chunk.length)
}

/// Collects tensors of one file to upload and streams them in file order.
pub struct Uploader {
    path: String,
    alignment: u64,
    uploads: Vec<Upload>,
}

impl Uploader {
    /// The reads' alignment divides a staging buffer, and every upload has its bytes and addresses.
    pub closed spec fn valid(self) -> bool {
        &&& 0 < self.alignment <= STAGING_BYTES
        &&& STAGING_BYTES as int % self.alignment as int == 0
        &&& forall|i: int| 0 <= i < self.uploads@.len() ==> (#[trigger] self.uploads@[i]).valid(self.alignment as int)
        &&& total(self.uploads@) <= usize::MAX
    }

    pub closed spec fn path(self) -> Seq<char> {
        self.path@
    }

    pub closed spec fn alignment(self) -> nat {
        self.alignment as nat
    }

    /// What was queued, in that order.
    pub closed spec fn queued(self) -> Seq<Upload> {
        self.uploads@
    }

    /// Nothing queued of the file at `path`, which is read directly in multiples of `alignment`.
    pub fn new(path: String, alignment: u64) -> (uploader: Uploader)
        requires
            0 < alignment <= STAGING_BYTES,
            STAGING_BYTES as int % alignment as int == 0,
        ensures
            uploader.valid(),
            uploader.path() == path@,
            uploader.alignment() == alignment,
            uploader.queued() == Seq::<Upload>::empty(),
    {
        Uploader { path, alignment, uploads: Vec::new() }
    }

    /// Queues the `length` bytes at `file_offset` of the file at `path` for `offset` bytes into
    /// `buffer`. The buffer must outlive the streaming.
    pub fn queue(&mut self, path: &str, file_offset: u64, length: usize, buffer: &DeviceBuffer, offset: usize)
        requires
            old(self).valid(),
            path@ == old(self).path(),
            buffer.valid(),
            offset + length <= buffer.size(),
            file_offset + length + old(self).alignment() + MERGE_GAP <= u64::MAX,
            total(old(self).queued()) + length <= usize::MAX,
        ensures
            final(self).valid(),
            final(self).path() == old(self).path(),
            final(self).alignment() == old(self).alignment(),
            length == 0 ==> final(self).queued() == old(self).queued(),
            length > 0 ==> final(self).queued() == old(self).queued().push(
                Upload { file_offset, length, destination: (buffer.at() + offset) as usize },
            ),
    {
        if length > 0 {
            proof {
                buffer.ends_at_an_address();
            }
            let upload = Upload { file_offset, length, destination: buffer.pointer_at(offset) };
            self.uploads.push(upload);
            assert(self.uploads@.drop_last() =~= old(self).uploads@);
        }
    }

    /// Starts streaming what was queued.
    pub fn start(self) -> (streaming: Streaming)
        requires
            self.valid(),
        ensures
            streaming.valid(),
            streaming.alignment() == self.alignment(),
            streaming.uploads() == in_file_order(self.queued()),
            streaming.remaining() == all_chunks(self.queued(), self.alignment() as int),
            streaming.chunk() == 0,
    {
        let ghost alignment = self.alignment as int;
        let ghost queued = self.uploads@;
        let mut sorted: Vec<Upload> = Vec::new();
        let count: usize = self.uploads.len();
        for index in 0..count
            invariant
                count == queued.len(),
                queued == self.uploads@,
                sorted@ == in_file_order(queued.take(index as int)),
        {
            let upload = self.uploads[index];
            insert(&mut sorted, upload);
            assert(queued.take(index + 1).drop_last() =~= queued.take(index as int));
        }
        assert(queued.take(queued.len() as int) =~= queued);
        proof {
            file_order_is_a_sort(queued);
            file_order_keeps(queued, alignment);
            spans_cover_the_uploads(sorted@, alignment);
        }
        let ranges = merge(&sorted, self.alignment);
        let position: u64 = if ranges.len() > 0 {
            ranges[0].start
        } else {
            0
        };
        proof {
            assert(ranges@.skip(0) =~= ranges@);
            if ranges@.len() > 0 {
                assert(well_aligned(ranges@[0], alignment));
            }
        }
        Streaming {
            uploads: sorted,
            alignment: self.alignment,
            ranges,
            range: 0,
            position,
            next_upload: 0,
            chunk: 0,
        }
    }
}

/// The chunks that streaming `uploads` reads, in order.
pub open spec fn all_chunks(uploads: Seq<Upload>, alignment: int) -> Seq<Chunk> {
    let ranges = spans(in_file_order(uploads), alignment);
    if ranges.len() == 0 {
        Seq::empty()
    } else {
        chunks(ranges, ranges[0].start as int)
    }
}

/// Puts `upload` behind everything that starts no later than it does.
fn insert(sorted: &mut Vec<Upload>, upload: Upload)
    ensures
        final(sorted)@ == inserted(old(sorted)@, upload),
{
    let ghost before = sorted@;
    let mut place: usize = sorted.len();
    proof {
        assert(before.take(place as int) =~= before);
        assert(inserted(before, upload) + before.skip(place as int) =~= inserted(before, upload));
    }
    while place > 0 && sorted[place - 1].file_offset > upload.file_offset
        invariant
            sorted@ == before,
            place <= before.len(),
            inserted(before, upload) == inserted(before.take(place as int), upload) + before.skip(place as int),
        decreases place,
    {
        proof {
            let shorter = before.take(place as int);
            assert(shorter.drop_last() =~= before.take(place - 1));
            assert(inserted(shorter, upload) + before.skip(place as int) =~= inserted(
                before.take(place - 1),
                upload,
            ) + before.skip(place - 1));
        }
        place = place - 1;
    }
    proof {
        let shorter = before.take(place as int);
        assert(inserted(shorter, upload) == shorter.push(upload));
        assert(before.insert(place as int, upload) =~= shorter.push(upload) + before.skip(place as int));
    }
    sorted.insert(place, upload);
}

/// The aligned stretches that cover `uploads`, merged across small gaps.
fn merge(uploads: &Vec<Upload>, alignment: u64) -> (ranges: Vec<Span>)
    requires
        0 < alignment <= STAGING_BYTES,
        is_sorted(uploads@),
        forall|i: int| 0 <= i < uploads@.len() ==> (#[trigger] uploads@[i]).valid(alignment as int),
    ensures
        ranges@ == spans(uploads@, alignment as int),
{
    let mut ranges: Vec<Span> = Vec::new();
    let count: usize = uploads.len();
    for index in 0..count
        invariant
            count == uploads@.len(),
            0 < alignment <= STAGING_BYTES,
            is_sorted(uploads@),
            forall|i: int| 0 <= i < uploads@.len() ==> (#[trigger] uploads@[i]).valid(alignment as int),
            ranges@ == spans(uploads@.take(index as int), alignment as int),
    {
        let upload = uploads[index];
        let ghost done = uploads@.take(index as int);
        let ghost more = uploads@.take(index + 1);
        proof {
            assert(upload.valid(alignment as int));
            assert(more.drop_last() =~= done);
            spans_cover_the_uploads(done, alignment as int);
            arithmetic::round_down_is_greatest(upload.file_offset as int, alignment as int);
            arithmetic::round_up_is_least(upload.file_end(), alignment as int);
            arithmetic::ceil_div_is_least(upload.file_end(), alignment as int);
        }
        let data_end: u64 = upload.file_offset + upload.length as u64;
        let start: u64 = upload.file_offset / alignment * alignment;
        let end: u64 = (data_end + alignment - 1) / alignment * alignment;
        let ranges_len: usize = ranges.len();
        if ranges_len > 0 && start <= ranges[ranges_len - 1].end + MERGE_GAP {
            let last = ranges[ranges_len - 1];
            ranges.set(
                ranges_len - 1,
                Span {
                    start: last.start,
                    end: if last.end < end {
                        end
                    } else {
                        last.end
                    },
                    data_end: if last.data_end < data_end {
                        data_end
                    } else {
                        last.data_end
                    },
                },
            );
        } else {
            ranges.push(Span { start, end, data_end });
        }
    }
    assert(uploads@.take(count as int) =~= uploads@);
    ranges
}

/// What to read into which staging buffer.
#[derive(Clone, Copy, Debug, PartialEq, Eq, Structural)]
pub struct Read {
    /// Which of the two staging buffers.
    pub slot: usize,
    /// Whether the copies that last read this staging buffer have to be waited for.
    pub wait: bool,
    /// Where in the file to read.
    pub position: u64,
    /// Bytes to read, from the start of the staging buffer.
    pub length: usize,
}

/// The uploads of one file on their way to the device.
pub struct Streaming {
    uploads: Vec<Upload>,
    alignment: u64,
    ranges: Vec<Span>,
    range: usize,
    position: u64,
    next_upload: usize,
    chunk: usize,
}

impl Streaming {
    /// The stretches are those of the uploads, which are in file order, the position is an aligned
    /// one in the stretch at hand, and every upload passed over ends before it.
    pub closed spec fn valid(self) -> bool {
        let alignment = self.alignment as int;
        &&& 0 < self.alignment <= STAGING_BYTES
        &&& STAGING_BYTES as int % alignment == 0
        &&& is_sorted(self.uploads@)
        &&& forall|i: int| 0 <= i < self.uploads@.len() ==> (#[trigger] self.uploads@[i]).valid(alignment)
        &&& total(self.uploads@) <= usize::MAX
        &&& self.ranges@ == spans(self.uploads@, alignment)
        &&& self.range <= self.ranges@.len()
        &&& self.range < self.ranges@.len() ==> {
            &&& self.ranges@[self.range as int].start <= self.position < self.ranges@[self.range as int].end
            &&& self.position as int % alignment == 0
        }
        &&& self.next_upload <= self.uploads@.len()
        &&& forall|i: int| 0 <= i < self.next_upload ==> (#[trigger] self.uploads@[i]).file_end() <= self.position
    }

    pub closed spec fn uploads(self) -> Seq<Upload> {
        self.uploads@
    }

    pub closed spec fn alignment(self) -> nat {
        self.alignment as nat
    }

    /// The chunks that are still to be read.
    pub closed spec fn remaining(self) -> Seq<Chunk> {
        chunks(self.ranges@.skip(self.range as int), self.position as int)
    }

    /// How many chunks were read.
    pub closed spec fn chunk(self) -> nat {
        self.chunk as nat
    }

    /// What to read next, or nothing once everything was read.
    pub fn next(&self) -> (read: Option<Read>)
        requires
            self.valid(),
        ensures
            read is None <==> self.remaining().len() == 0,
            read matches Some(read) ==> {
                let chunk = self.remaining()[0];
                &&& read.slot == self.chunk() % 2
                &&& read.wait == (self.chunk() >= 2)
                &&& read.position == chunk.position
                &&& read.length == chunk.length
                &&& 0 < read.length <= STAGING_BYTES
                &&& read.position as int % self.alignment() as int == 0
                &&& read.length as int % self.alignment() as int == 0
            },
    {
        if self.range >= self.ranges.len() {
            return None;
        }
        let range = self.ranges[self.range];
        let left: u64 = range.end - self.position;
        let length: usize = if left < STAGING_BYTES as u64 {
            left as usize
        } else {
            STAGING_BYTES
        };
        proof {
            self.first_chunk();
        }
        Some(Read { slot: self.chunk % 2, wait: self.chunk >= 2, position: self.position, length })
    }

    proof fn first_chunk(self)
        requires
            self.valid(),
            self.range < self.ranges@.len(),
        ensures
            ({
                let range = self.ranges@[self.range as int];
                let length = arithmetic::min(range.end - self.position, STAGING_BYTES as int);
                &&& well_aligned(range, self.alignment as int)
                &&& length % self.alignment as int == 0
                &&& self.remaining() == seq![
                    Chunk { position: self.position, length: length as usize, data_end: range.data_end },
                ] + chunks(self.ranges@.skip(self.range as int), self.position + length)
            }),
    {
        let alignment = self.alignment as int;
        let range = self.ranges@[self.range as int];
        spans_cover_the_uploads(self.uploads@, alignment);
        assert(well_aligned(range, alignment));
        assert(self.ranges@.skip(self.range as int)[0] == range);
        vstd::arithmetic::div_mod::lemma_sub_mod_noop(range.end as int, self.position as int, alignment);
        vstd::arithmetic::div_mod::lemma_small_mod(0, alignment as nat);
        assert((range.end - self.position) % alignment == 0);
    }

    /// Takes that `read` bytes came back of what `next` said to read. Answers what to copy to the
    /// device from that staging buffer, whose event is to be recorded behind the copies, or that the
    /// file is too short.
    pub fn copies(&mut self, read: usize) -> (copies: Result<Vec<DeviceCopy>, LoadError>)
        requires
            old(self).valid(),
            old(self).remaining().len() > 0,
            read <= old(self).remaining()[0].length,
            old(self).chunk() < usize::MAX,
        ensures
            final(self).valid(),
            final(self).uploads() == old(self).uploads(),
            final(self).alignment() == old(self).alignment(),
            ({
                let chunk = old(self).remaining()[0];
                match copies {
                    Ok(copies) => {
                        &&& enough(chunk, read as int)
                        &&& copies@ == pieces(old(self).uploads(), chunk.position as int, chunk.position + read)
                        &&& final(self).remaining() == old(self).remaining().drop_first()
                        &&& final(self).chunk() == old(self).chunk() + 1
                    },
                    Err(error) => {
                        &&& !enough(chunk, read as int)
                        &&& error matches LoadError::Io(fault)
                        &&& fault.says(FaultKind::UnexpectedEof, "the checkpoint is shorter than its header says"@)
                        &&& *final(self) == *old(self)
                    },
                }
            }),
    {
        let ghost alignment = self.alignment as int;
        proof {
            if self.range >= self.ranges@.len() {
                assert(self.ranges@.skip(self.range as int).len() == 0);
            }
            self.first_chunk();
        }
        let position: u64 = self.position;
        let range = self.ranges[self.range];
        let left: u64 = range.end - position;
        let length: usize = if left < STAGING_BYTES as u64 {
            left as usize
        } else {
            STAGING_BYTES
        };
        let chunk_end: u64 = position + read as u64;
        let wanted: u64 = if range.data_end < position + length as u64 {
            range.data_end
        } else {
            position + length as u64
        };
        if chunk_end < wanted {
            let message = String::from_str("the checkpoint is shorter than its header says");
            return Err(LoadError::Io(Fault { kind: FaultKind::UnexpectedEof, message }));
        }
        let count: usize = self.uploads.len();
        let mut first: usize = self.next_upload;
        while first < count && self.uploads[first].file_offset + self.uploads[first].length as u64 <= position
            invariant
                self.uploads@ == old(self).uploads@,
                count == self.uploads@.len(),
                0 < alignment,
                first <= count,
                forall|i: int| 0 <= i < count ==> (#[trigger] self.uploads@[i]).valid(alignment),
                forall|i: int| 0 <= i < first ==> (#[trigger] self.uploads@[i]).file_end() <= position,
            decreases count - first,
        {
            first = first + 1;
        }
        proof {
            nothing_behind(self.uploads@.take(first as int), position as int, chunk_end as int);
        }
        let mut copies: Vec<DeviceCopy> = Vec::new();
        let mut index: usize = first;
        while index < count && self.uploads[index].file_offset < chunk_end
            invariant
                self.uploads@ == old(self).uploads@,
                count == self.uploads@.len(),
                0 < alignment,
                index <= count,
                position <= chunk_end,
                chunk_end - position <= STAGING_BYTES,
                forall|i: int| 0 <= i < count ==> (#[trigger] self.uploads@[i]).valid(alignment),
                copies@ == pieces(self.uploads@.take(index as int), position as int, chunk_end as int),
            decreases count - index,
        {
            let upload = self.uploads[index];
            let ghost before = copies@;
            let upload_end: u64 = upload.file_offset + upload.length as u64;
            let start: u64 = if upload.file_offset < position {
                position
            } else {
                upload.file_offset
            };
            let end: u64 = if upload_end < chunk_end {
                upload_end
            } else {
                chunk_end
            };
            if start < end {
                copies.push(
                    DeviceCopy {
                        destination: upload.destination + (start - upload.file_offset) as usize,
                        source: (start - position) as usize,
                        bytes: (end - start) as usize,
                    },
                );
            }
            proof {
                let more = self.uploads@.take(index + 1);
                assert(more.drop_last() =~= self.uploads@.take(index as int));
                assert(copies@ =~= before + piece(upload, position as int, chunk_end as int));
            }
            index = index + 1;
        }
        proof {
            nothing_ahead(self.uploads@, index as int, position as int, chunk_end as int);
        }
        self.next_upload = first;
        self.position = position + length as u64;
        self.chunk = self.chunk + 1;
        proof {
            assert((position + length) % alignment == 0) by {
                vstd::arithmetic::div_mod::lemma_add_mod_noop(position as int, length as int, alignment);
            }
            assert(self.remaining() =~= old(self).remaining().drop_first());
        }
        let range_count: usize = self.ranges.len();
        if self.position >= range.end {
            let ghost here = *self;
            self.range = self.range + 1;
            proof {
                let rest = self.ranges@.skip(here.range as int);
                assert(rest.drop_first() =~= self.ranges@.skip(self.range as int));
                spans_cover_the_uploads(self.uploads@, alignment);
            }
            if self.range < range_count {
                self.position = self.ranges[self.range].start;
                proof {
                    assert(well_aligned(self.ranges@[self.range as int], alignment));
                    assert(self.ranges@[here.range as int].end < self.ranges@[self.range as int].start);
                }
            }
        }
        Ok(copies)
    }

    /// The bytes uploaded once everything was copied.
    pub fn uploaded(&self) -> (bytes: usize)
        requires
            self.valid(),
        ensures
            bytes == total(self.uploads()),
    {
        let mut bytes: usize = 0;
        let count: usize = self.uploads.len();
        for index in 0..count
            invariant
                count == self.uploads@.len(),
                total(self.uploads@) <= usize::MAX,
                bytes == total(self.uploads@.take(index as int)),
        {
            proof {
                assert(self.uploads@.take(index + 1).drop_last() =~= self.uploads@.take(index as int));
                total_grows(self.uploads@, index + 1);
            }
            bytes = bytes + self.uploads[index].length;
        }
        assert(self.uploads@.take(count as int) =~= self.uploads@);
        bytes
    }
}

proof fn total_grows(uploads: Seq<Upload>, count: int)
    requires
        0 <= count <= uploads.len(),
    ensures
        total(uploads.take(count)) <= total(uploads),
    decreases uploads.len(),
{
    if count == uploads.len() {
        assert(uploads.take(count) =~= uploads);
    } else {
        total_grows(uploads.drop_last(), count);
        assert(uploads.drop_last().take(count) =~= uploads.take(count));
    }
}

proof fn nothing_behind(uploads: Seq<Upload>, position: int, end: int)
    requires
        forall|i: int| 0 <= i < uploads.len() ==> (#[trigger] uploads[i]).file_end() <= position,
    ensures
        pieces(uploads, position, end) == Seq::<DeviceCopy>::empty(),
    decreases uploads.len(),
{
    if uploads.len() > 0 {
        nothing_behind(uploads.drop_last(), position, end);
        assert(uploads.last() == uploads[uploads.len() - 1]);
        assert(pieces(uploads, position, end) =~= Seq::empty());
    }
}

proof fn nothing_ahead(uploads: Seq<Upload>, index: int, position: int, end: int)
    requires
        is_sorted(uploads),
        0 <= index <= uploads.len(),
        index < uploads.len() ==> uploads[index].file_offset >= end,
    ensures
        pieces(uploads, position, end) == pieces(uploads.take(index), position, end),
    decreases uploads.len(),
{
    if index == uploads.len() {
        assert(uploads.take(index) =~= uploads);
    } else {
        let rest = uploads.drop_last();
        assert(uploads[index].file_offset <= uploads.last().file_offset);
        nothing_ahead(rest, index, position, end);
        assert(rest.take(index) =~= uploads.take(index));
        assert(pieces(uploads, position, end) =~= pieces(rest, position, end));
    }
}

/// Whether the byte `byte` of `upload` lies in what was read of `chunk`.
pub open spec fn brought(chunk: Chunk, read: int, upload: Upload, byte: int) -> bool {
    chunk.position <= upload.file_offset + byte < chunk.position + read
}

/// Whether `copy`, out of a staging buffer read from `chunk`, puts the byte `byte` of `upload` where
/// it belongs.
pub open spec fn delivers(copy: DeviceCopy, chunk: Chunk, upload: Upload, byte: int) -> bool {
    let file_position = upload.file_offset + byte;
    let address = upload.destination + byte;
    &&& copy.source <= file_position - chunk.position < copy.source + copy.bytes
    &&& copy.destination <= address < copy.destination + copy.bytes
    &&& address - copy.destination == file_position - chunk.position - copy.source
}

/// Whether `position` lies in `chunk`, a chunk of `span`.
pub open spec fn within(chunk: Chunk, span: Span, position: int) -> bool {
    chunk.position <= position < chunk.position + chunk.length && chunk.data_end == span.data_end
}

pub open spec fn disjoint_spans(ranges: Seq<Span>) -> bool {
    &&& forall|r: int| 0 <= r < ranges.len() ==> (#[trigger] ranges[r]).start < ranges[r].end
    &&& forall|r: int, q: int| 0 <= r < q < ranges.len() ==> (#[trigger] ranges[r]).end < (#[trigger] ranges[q]).start
}

/// The chunks follow each other without overlapping, and every position of a stretch is in one.
#[verifier::spinoff_prover]
#[verifier::rlimit(40)]
proof fn chunks_tile(ranges: Seq<Span>, position: int)
    requires
        disjoint_spans(ranges),
        ranges.len() > 0,
        ranges[0].start <= position <= ranges[0].end,
    ensures
        forall|k: int|
            0 <= k < chunks(ranges, position).len() ==> (#[trigger] chunks(ranges, position)[k]).position >= position
                && chunks(ranges, position)[k].length > 0,
        forall|k: int, l: int|
            0 <= k < l < chunks(ranges, position).len() ==> (#[trigger] chunks(ranges, position)[k]).position
                + chunks(ranges, position)[k].length <= (#[trigger] chunks(ranges, position)[l]).position,
        forall|r: int, place: int|
            #![trigger ranges[r], in_reach(place)]
            in_reach(place) && 0 <= r < ranges.len() && (if r == 0 {
                position
            } else {
                ranges[r].start as int
            }) <= place < ranges[r].end ==> exists|k: int|
                0 <= k < chunks(ranges, position).len() && within(
                    #[trigger] chunks(ranges, position)[k],
                    ranges[r],
                    place,
                ),
    decreases ranges.len(), ranges[0].end - position,
{
    let all = chunks(ranges, position);
    if position >= ranges[0].end {
        let rest = ranges.drop_first();
        assert(forall|r: int| 0 <= r < rest.len() ==> #[trigger] rest[r] == ranges[r + 1]);
        if rest.len() > 0 {
            assert(rest[0] == ranges[1]);
            assert(all == chunks(rest, rest[0].start as int));
            chunks_tile(rest, rest[0].start as int);
            assert forall|k: int| 0 <= k < all.len() implies (#[trigger] all[k]).position >= position && all[k].length
                > 0 by {}
            assert forall|r: int, place: int|
                #![trigger ranges[r], in_reach(place)]
                in_reach(place) && 0 <= r < ranges.len() && (if r == 0 {
                    position
                } else {
                    ranges[r].start as int
                }) <= place < ranges[r].end implies exists|k: int|
                0 <= k < all.len() && within(#[trigger] all[k], ranges[r], place) by {
                assert(rest[r - 1] == ranges[r]);
            }
        }
    } else {
        let length = arithmetic::min(ranges[0].end - position, STAGING_BYTES as int);
        let head = Chunk { position: position as u64, length: length as usize, data_end: ranges[0].data_end };
        let tail = chunks(ranges, position + length);
        chunks_tile(ranges, position + length);
        assert(all == seq![head] + tail);
        assert(forall|k: int| 0 <= k < tail.len() ==> #[trigger] all[k + 1] == tail[k]);
        assert forall|k: int, l: int| 0 <= k < l < all.len() implies (#[trigger] all[k]).position + all[k].length <= (
        #[trigger] all[l]).position by {
            assert(all[l] == tail[l - 1]);
            if k > 0 {
                assert(all[k] == tail[k - 1]);
            }
        }
        assert forall|k: int| 0 <= k < all.len() implies (#[trigger] all[k]).position >= position && all[k].length
            > 0 by {
            if k > 0 {
                assert(all[k] == tail[k - 1]);
            }
        }
        assert forall|r: int, place: int|
            #![trigger ranges[r], in_reach(place)]
            in_reach(place) && 0 <= r < ranges.len() && (if r == 0 {
                position
            } else {
                ranges[r].start as int
            }) <= place < ranges[r].end implies exists|k: int|
            0 <= k < all.len() && within(#[trigger] all[k], ranges[r], place) by {
            if r == 0 && place < position + length {
                assert(within(all[0], ranges[r], place));
            } else {
                let k = choose|k: int| 0 <= k < tail.len() && within(#[trigger] tail[k], ranges[r], place);
                assert(within(all[k + 1], ranges[r], place));
            }
        }
    }
}

spec fn in_reach(place: int) -> bool {
    true
}

proof fn pieces_deliver(uploads: Seq<Upload>, chunk: Chunk, read: int, index: int, byte: int, alignment: int)
    requires
        0 <= index < uploads.len(),
        0 < alignment,
        uploads[index].valid(alignment),
        0 <= byte < uploads[index].length,
        0 <= read <= STAGING_BYTES,
        brought(chunk, read, uploads[index], byte),
    ensures
        exists|j: int|
            0 <= j < pieces(uploads, chunk.position as int, chunk.position + read).len() && delivers(
                #[trigger] pieces(uploads, chunk.position as int, chunk.position + read)[j],
                chunk,
                uploads[index],
                byte,
            ),
    decreases uploads.len(),
{
    let position = chunk.position as int;
    let all = pieces(uploads, position, position + read);
    let rest = uploads.drop_last();
    let before = pieces(rest, position, position + read);
    if index == uploads.len() - 1 {
        let copy = piece(uploads.last(), position, position + read)[0];
        assert(all[before.len() as int] == copy);
        assert(delivers(copy, chunk, uploads[index], byte));
    } else {
        assert(rest[index] == uploads[index]);
        pieces_deliver(rest, chunk, read, index, byte, alignment);
        let j = choose|j: int| 0 <= j < before.len() && delivers(#[trigger] before[j], chunk, uploads[index], byte);
        assert(all[j] == before[j]);
    }
}

proof fn in_file_order_contains(uploads: Seq<Upload>, index: int)
    requires
        0 <= index < uploads.len(),
    ensures
        exists|place: int|
            0 <= place < in_file_order(uploads).len() && #[trigger] in_file_order(uploads)[place] == uploads[index],
{
    broadcast use vstd::seq_lib::group_to_multiset_ensures;

    file_order_is_a_sort(uploads);
    let sorted = in_file_order(uploads);
    assert(uploads.contains(uploads[index]));
    assert(sorted.contains(uploads[index])) by {
        assert(uploads.to_multiset().count(uploads[index]) > 0);
        assert(sorted.to_multiset().count(uploads[index]) > 0);
    }
}

/// Streaming uploads every byte: whatever the reads brought back, as long as each was enough, each
/// byte of each queued upload was in exactly one of them, and a copy out of that one put it where it
/// was queued for.
pub proof fn every_byte_is_copied_once(
    queued: Seq<Upload>,
    alignment: int,
    reads: Seq<int>,
    index: int,
    byte: int,
)
    requires
        0 < alignment <= STAGING_BYTES,
        forall|i: int| 0 <= i < queued.len() ==> (#[trigger] queued[i]).valid(alignment),
        reads.len() == all_chunks(queued, alignment).len(),
        forall|k: int|
            0 <= k < reads.len() ==> 0 <= #[trigger] reads[k] <= all_chunks(queued, alignment)[k].length && enough(
                all_chunks(queued, alignment)[k],
                reads[k],
            ),
        0 <= index < queued.len(),
        0 <= byte < queued[index].length,
    ensures
        exists|k: int|
            0 <= k < reads.len() && #[trigger] brought(
                all_chunks(queued, alignment)[k],
                reads[k],
                queued[index],
                byte,
            ),
        forall|k: int, l: int|
            0 <= k < reads.len() && 0 <= l < reads.len() && #[trigger] brought(
                all_chunks(queued, alignment)[k],
                reads[k],
                queued[index],
                byte,
            ) && #[trigger] brought(all_chunks(queued, alignment)[l], reads[l], queued[index], byte) ==> k == l,
        forall|k: int|
            0 <= k < reads.len() && #[trigger] brought(
                all_chunks(queued, alignment)[k],
                reads[k],
                queued[index],
                byte,
            ) ==> ({
                let chunk = all_chunks(queued, alignment)[k];
                let copies = pieces(in_file_order(queued), chunk.position as int, chunk.position + reads[k]);
                exists|j: int| 0 <= j < copies.len() && delivers(#[trigger] copies[j], chunk, queued[index], byte)
            }),
{
    let sorted = in_file_order(queued);
    let ranges = spans(sorted, alignment);
    let all = all_chunks(queued, alignment);
    let upload = queued[index];
    assert(upload.valid(alignment));
    file_order_is_a_sort(queued);
    file_order_keeps(queued, alignment);
    spans_cover_the_uploads(sorted, alignment);
    in_file_order_contains(queued, index);
    let place = choose|place: int| 0 <= place < sorted.len() && #[trigger] sorted[place] == upload;
    let r = choose|r: int| 0 <= r < ranges.len() && holds(#[trigger] ranges[r], sorted[place]);
    assert forall|q: int| 0 <= q < ranges.len() implies (#[trigger] ranges[q]).start < ranges[q].end by {
        assert(well_aligned(ranges[q], alignment));
    }
    assert(disjoint_spans(ranges));
    assert(well_aligned(ranges[r], alignment));
    chunks_tile(ranges, ranges[0].start as int);
    let file_position = upload.file_offset + byte;
    assert(in_reach(file_position));
    let k = choose|k: int| 0 <= k < all.len() && within(#[trigger] all[k], ranges[r], file_position);
    assert(0 <= reads[k] <= all[k].length && enough(all[k], reads[k]));
    assert(brought(all[k], reads[k], upload, byte));
    assert forall|k: int, l: int|
        0 <= k < reads.len() && 0 <= l < reads.len() && #[trigger] brought(all[k], reads[k], upload, byte)
            && #[trigger] brought(all[l], reads[l], upload, byte) implies k == l by {
        assert(reads[k] <= all[k].length && reads[l] <= all[l].length);
        if k < l {
            assert(all[k].position + all[k].length <= all[l].position);
        } else if l < k {
            assert(all[l].position + all[l].length <= all[k].position);
        }
    }
    assert forall|k: int| 0 <= k < reads.len() && #[trigger] brought(all[k], reads[k], upload, byte) implies ({
        let copies = pieces(sorted, all[k].position as int, all[k].position + reads[k]);
        exists|j: int| 0 <= j < copies.len() && delivers(#[trigger] copies[j], all[k], upload, byte)
    }) by {
        chunk_fits(ranges, ranges[0].start as int, k);
        pieces_deliver(sorted, all[k], reads[k], place, byte, alignment);
    }
}

proof fn chunk_fits(ranges: Seq<Span>, position: int, k: int)
    requires
        ranges.len() > 0,
        0 <= k < chunks(ranges, position).len(),
    ensures
        chunks(ranges, position)[k].length <= STAGING_BYTES,
    decreases ranges.len(), ranges[0].end - position,
{
    if position >= ranges[0].end {
        let rest = ranges.drop_first();
        if rest.len() > 0 {
            chunk_fits(rest, rest[0].start as int, k);
        }
    } else {
        let length = arithmetic::min(ranges[0].end - position, STAGING_BYTES as int);
        if k > 0 {
            assert(chunks(ranges, position)[k] == chunks(ranges, position + length)[k - 1]);
            chunk_fits(ranges, position + length, k - 1);
        }
    }
}

} // verus!
