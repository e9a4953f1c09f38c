//! MP4 demuxing of a file's H.264 video track.
//!
//! Only what a reference clip needs: the track's size, its parameter sets and its samples in
//! decoding order, handed out as Annex B access units for a hardware decoder. Audio itself is
//! decoded elsewhere, but the edit list that hides a codec's priming comes from here.
use crate::arithmetic;
use crate::fault::{Fault, FaultKind};
use crate::text;
use vstd::prelude::*;
use vstd::slice::slice_subrange;

verus! {

/// Start code of an Annex B NAL unit.
pub open spec fn start_code() -> Seq<u8> {
    seq![0u8, 0u8, 0u8, 1u8]
}

/// The number that `bytes` spell, the most significant first.
pub open spec fn big_endian(bytes: Seq<u8>) -> nat
    decreases bytes.len(),
{
    if bytes.len() == 0 {
        0
    } else {
        big_endian(bytes.drop_last()) * 256 + bytes.last() as nat
    }
}

/// What went wrong in a box, in words.
pub type Words = Seq<char>;

pub open spec fn field_cut() -> Words {
    "a box ends inside a field"@
}

/// The `width` bytes at `offset` of `payload`, if it holds them.
pub open spec fn bytes_at(payload: Seq<u8>, offset: int, width: int) -> Result<Seq<u8>, Words> {
    if 0 <= offset && offset + width <= payload.len() {
        Ok(payload.subrange(offset, offset + width))
    } else {
        Err(field_cut())
    }
}

/// The number in the `width` bytes at `offset` of `payload`, if it holds them.
pub open spec fn number_at(payload: Seq<u8>, offset: int, width: int) -> Result<nat, Words> {
    match bytes_at(payload, offset, width) {
        Ok(bytes) => Ok(big_endian(bytes)),
        Err(words) => Err(words),
    }
}

fn invalid(message: &str) -> (fault: Fault)
    ensures
        fault.says(FaultKind::InvalidData, message@),
{
    Fault { kind: FaultKind::InvalidData, message: String::from_str(message) }
}

proof fn big_endian_of_two(bytes: Seq<u8>)
    requires
        bytes.len() == 2,
    ensures
        big_endian(bytes) == bytes[0] * 256 + bytes[1],
{
    reveal_with_fuel(big_endian, 3);
}

proof fn big_endian_of_four(bytes: Seq<u8>)
    requires
        bytes.len() == 4,
    ensures
        big_endian(bytes) == bytes[0] * 0x100_0000 + bytes[1] * 0x1_0000 + bytes[2] * 0x100 + bytes[3],
{
    reveal_with_fuel(big_endian, 5);
}

proof fn big_endian_of_parts(bytes: Seq<u8>, cut: int)
    requires
        0 <= cut <= bytes.len(),
        bytes.len() - cut == 4,
    ensures
        big_endian(bytes) == big_endian(bytes.take(cut)) * 0x1_0000_0000 + big_endian(bytes.skip(cut)),
{
    let head = bytes.take(cut);
    let n = bytes.len() as int;
    assert(bytes.skip(cut).len() == 4);
    big_endian_of_four(bytes.skip(cut));
    let a = bytes.take(cut + 1);
    let b = bytes.take(cut + 2);
    let c = bytes.take(cut + 3);
    assert(a.drop_last() =~= head);
    assert(b.drop_last() =~= a);
    assert(c.drop_last() =~= b);
    assert(bytes.drop_last() =~= c);
    let high = big_endian(head);
    assert(big_endian(a) == high * 256 + bytes[cut]);
    assert(big_endian(b) == big_endian(a) * 256 + bytes[cut + 1]);
    assert(big_endian(c) == big_endian(b) * 256 + bytes[cut + 2]);
    assert(big_endian(bytes) == big_endian(c) * 256 + bytes[cut + 3]);
    let tail = bytes.skip(cut);
    assert(tail[0] == bytes[cut] && tail[1] == bytes[cut + 1] && tail[2] == bytes[cut + 2] && tail[3] == bytes[cut
        + 3]);
}

fn u16_at(payload: &[u8], offset: usize) -> (result: Result<u16, Fault>)
    ensures
        match number_at(payload@, offset as int, 2) {
            Ok(value) => result matches Ok(number) && number == value,
            Err(words) => result matches Err(fault) && fault.says(FaultKind::InvalidData, words),
        },
{
    if payload.len() < 2 || offset > payload.len() - 2 {
        return Err(invalid("a box ends inside a field"));
    }
    proof {
        big_endian_of_two(payload@.subrange(offset as int, offset + 2));
    }
    Ok(payload[offset] as u16 * 256 + payload[offset + 1] as u16)
}

fn u32_at(payload: &[u8], offset: u64) -> (result: Result<u32, Fault>)
    ensures
        match number_at(payload@, offset as int, 4) {
            Ok(value) => result matches Ok(number) && number == value,
            Err(words) => result matches Err(fault) && fault.says(FaultKind::InvalidData, words),
        },
{
    if payload.len() < 4 || offset > payload.len() as u64 - 4 {
        return Err(invalid("a box ends inside a field"));
    }
    let place: usize = offset as usize;
    proof {
        big_endian_of_four(payload@.subrange(offset as int, offset + 4));
    }
    Ok(
        payload[place] as u32 * 0x100_0000 + payload[place + 1] as u32 * 0x1_0000 + payload[place + 2] as u32 * 0x100
            + payload[place + 3] as u32,
    )
}

fn u64_at(payload: &[u8], offset: u64) -> (result: Result<u64, Fault>)
    ensures
        match number_at(payload@, offset as int, 8) {
            Ok(value) => result matches Ok(number) && number == value,
            Err(words) => result matches Err(fault) && fault.says(FaultKind::InvalidData, words),
        },
{
    if payload.len() < 8 || offset > payload.len() as u64 - 8 {
        return Err(invalid("a box ends inside a field"));
    }
    let high = u32_at(payload, offset);
    let low = u32_at(payload, offset + 4);
    match (high, low) {
        (Ok(high), Ok(low)) => {
            proof {
                let bytes = payload@.subrange(offset as int, offset + 8);
                big_endian_of_parts(bytes, 4);
                assert(bytes.take(4) =~= payload@.subrange(offset as int, offset + 4));
                assert(bytes.skip(4) =~= payload@.subrange(offset + 4, offset + 8));
            }
            Ok(high as u64 * 0x1_0000_0000 + low as u64)
        },
        (Err(fault), _) => Err(fault),
        (_, Err(fault)) => Err(fault),
    }
}

/// The kinds of boxes that are looked for, and the kinds of tracks.
#[derive(Clone, Copy, Debug, PartialEq, Eq, Structural)]
pub enum Kind {
    Moov,
    Trak,
    Mdia,
    Hdlr,
    Mdhd,
    Minf,
    Stbl,
    Stsd,
    Stsz,
    Stts,
    Stco,
    Co64,
    Stsc,
    Stss,
    Mvhd,
    Edts,
    Elst,
    Avc1,
    Avc3,
    AvcC,
    Vide,
    Soun,
}

impl Kind {
    /// The four characters of the kind.
    pub open spec fn letters(self) -> Words {
        match self {
            Kind::Moov => "moov"@,
            Kind::Trak => "trak"@,
            Kind::Mdia => "mdia"@,
            Kind::Hdlr => "hdlr"@,
            Kind::Mdhd => "mdhd"@,
            Kind::Minf => "minf"@,
            Kind::Stbl => "stbl"@,
            Kind::Stsd => "stsd"@,
            Kind::Stsz => "stsz"@,
            Kind::Stts => "stts"@,
            Kind::Stco => "stco"@,
            Kind::Co64 => "co64"@,
            Kind::Stsc => "stsc"@,
            Kind::Stss => "stss"@,
            Kind::Mvhd => "mvhd"@,
            Kind::Edts => "edts"@,
            Kind::Elst => "elst"@,
            Kind::Avc1 => "avc1"@,
            Kind::Avc3 => "avc3"@,
            Kind::AvcC => "avcC"@,
            Kind::Vide => "vide"@,
            Kind::Soun => "soun"@,
        }
    }

    /// The four bytes of the kind, which are its characters.
    pub open spec fn code(self) -> Seq<u8> {
        Seq::new(self.letters().len(), |i: int| self.letters()[i] as u8)
    }

    pub fn name(self) -> (name: &'static str)
        ensures
            name@ == self.letters(),
    {
        match self {
            Kind::Moov => "moov",
            Kind::Trak => "trak",
            Kind::Mdia => "mdia",
            Kind::Hdlr => "hdlr",
            Kind::Mdhd => "mdhd",
            Kind::Minf => "minf",
            Kind::Stbl => "stbl",
            Kind::Stsd => "stsd",
            Kind::Stsz => "stsz",
            Kind::Stts => "stts",
            Kind::Stco => "stco",
            Kind::Co64 => "co64",
            Kind::Stsc => "stsc",
            Kind::Stss => "stss",
            Kind::Mvhd => "mvhd",
            Kind::Edts => "edts",
            Kind::Elst => "elst",
            Kind::Avc1 => "avc1",
            Kind::Avc3 => "avc3",
            Kind::AvcC => "avcC",
            Kind::Vide => "vide",
            Kind::Soun => "soun",
        }
    }
}

proof fn letters_are_plain(kind: Kind)
    ensures
        kind.letters().len() == 4,
        forall|i: int| 0 <= i < 4 ==> (#[trigger] kind.letters()[i]) as u32 <= 127,
{
    reveal_strlit("moov");
    reveal_strlit("trak");
    reveal_strlit("mdia");
    reveal_strlit("hdlr");
    reveal_strlit("mdhd");
    reveal_strlit("minf");
    reveal_strlit("stbl");
    reveal_strlit("stsd");
    reveal_strlit("stsz");
    reveal_strlit("stts");
    reveal_strlit("stco");
    reveal_strlit("co64");
    reveal_strlit("stsc");
    reveal_strlit("stss");
    reveal_strlit("mvhd");
    reveal_strlit("edts");
    reveal_strlit("elst");
    reveal_strlit("avc1");
    reveal_strlit("avc3");
    reveal_strlit("avcC");
    reveal_strlit("vide");
    reveal_strlit("soun");
    assert forall|i: int| 0 <= i < 4 implies (#[trigger] kind.letters()[i]) as u32 <= 127 by {
        assert(i == 0 || i == 1 || i == 2 || i == 3);
    }
}

/// A box of a container, at its place in the container's payload.
#[derive(Clone, Copy, Debug, PartialEq, Eq, Structural)]
pub struct BoxAt {
    /// Where its kind is spelled.
    pub kind: usize,
    /// Where its payload starts,
    pub start: usize,
    /// and where it ends.
    pub end: usize,
}

/// The header and the size in all of the box at `offset`: size 1 means a 64-bit size follows the
/// header, and 0 the rest of the container.
pub open spec fn box_size(payload: Seq<u8>, offset: int) -> Option<(int, int)> {
    let size = big_endian(payload.subrange(offset, offset + 4));
    if size == 0 {
        Some((8, payload.len() - offset))
    } else if size == 1 {
        match number_at(payload, offset + 8, 8) {
            Ok(large) => Some((16, (large as u64 as usize) as int)),
            Err(_) => None,
        }
    } else {
        Some((8, size as int))
    }
}

/// The box at `offset`, unless the container ends before its header does, or the box before its own
/// header or past its container.
pub open spec fn box_at(payload: Seq<u8>, offset: int) -> Option<BoxAt> {
    if offset < 0 || offset + 8 > payload.len() {
        None
    } else {
        match box_size(payload, offset) {
            None => None,
            Some((header, size)) => if size < header || offset + size > payload.len() {
                None
            } else {
                Some(
                    BoxAt {
                        kind: (offset + 4) as usize,
                        start: (offset + header) as usize,
                        end: (offset + size) as usize,
                    },
                )
            },
        }
    }
}

/// The boxes of a container's payload from `offset` on, in their order.
pub open spec fn boxes(payload: Seq<u8>, offset: int) -> Seq<BoxAt>
    decreases payload.len() - offset,
{
    match box_at(payload, offset) {
        Some(found) => if payload.len() <= usize::MAX && found.end > offset {
            seq![found] + boxes(payload, found.end as int)
        } else {
            Seq::empty()
        },
        None => Seq::empty(),
    }
}

/// Whether the box `found` of `payload` is of `kind`.
pub open spec fn is_kind(payload: Seq<u8>, found: BoxAt, kind: Kind) -> bool {
    payload.subrange(found.kind as int, found.kind + 4) == kind.code()
}

pub open spec fn body(payload: Seq<u8>, found: BoxAt) -> Seq<u8> {
    payload.subrange(found.start as int, found.end as int)
}

/// Whether the box number `index` of `list` is the first of `kind`.
pub open spec fn first_of(payload: Seq<u8>, list: Seq<BoxAt>, kind: Kind, index: int) -> bool {
    &&& 0 <= index < list.len()
    &&& is_kind(payload, list[index], kind)
    &&& forall|before: int| 0 <= before < index ==> !is_kind(payload, #[trigger] list[before], kind)
}

pub open spec fn no_box(kind: Kind) -> Words {
    "no "@ + kind.letters() + " box"@
}

/// The payload of the first box of `kind` in a container's.
pub open spec fn child_of(payload: Seq<u8>, kind: Kind) -> Result<Seq<u8>, Words> {
    let list = boxes(payload, 0);
    if exists|index: int| first_of(payload, list, kind, index) {
        let index = choose|index: int| first_of(payload, list, kind, index);
        Ok(body(payload, list[index]))
    } else {
        Err(no_box(kind))
    }
}

proof fn box_at_is_inside(payload: Seq<u8>, offset: int)
    requires
        payload.len() <= usize::MAX,
        0 <= offset,
    ensures
        box_at(payload, offset) matches Some(found) ==> {
            &&& found.kind == offset + 4
            &&& offset + 8 <= found.start <= found.end <= payload.len()
            &&& found.kind + 4 <= found.start
            &&& offset < found.end
        },
{
}

proof fn boxes_are_inside(payload: Seq<u8>, offset: int)
    requires
        payload.len() <= usize::MAX,
        0 <= offset,
    ensures
        forall|k: int|
            0 <= k < boxes(payload, offset).len() ==> {
                let found = #[trigger] boxes(payload, offset)[k];
                offset + 4 <= found.kind && found.kind + 4 <= found.start <= found.end <= payload.len()
            },
    decreases payload.len() - offset,
{
    box_at_is_inside(payload, offset);
    if let Some(found) = box_at(payload, offset) {
        boxes_are_inside(payload, found.end as int);
        let rest = boxes(payload, found.end as int);
        assert forall|k: int| 0 <= k < boxes(payload, offset).len() implies {
            let found = #[trigger] boxes(payload, offset)[k];
            offset + 4 <= found.kind && found.kind + 4 <= found.start <= found.end <= payload.len()
        } by {
            if k > 0 {
                assert(boxes(payload, offset)[k] == rest[k - 1]);
            }
        }
    }
}

fn spells(payload: &[u8], offset: usize, kind: Kind) -> (same: bool)
    requires
        offset + 4 <= payload@.len(),
    ensures
        same == (payload@.subrange(offset as int, offset + 4) == kind.code()),
{
    let name = kind.name();
    let length: usize = payload.len();
    proof {
        letters_are_plain(kind);
    }
    for place in 0..4usize
        invariant
            offset + 4 <= payload@.len(),
            payload@.len() == length,
            name@ == kind.letters(),
            name@.len() == 4,
            forall|i: int| 0 <= i < 4 ==> (#[trigger] kind.letters()[i]) as u32 <= 127,
            forall|i: int| 0 <= i < place ==> payload@[offset + i] == #[trigger] kind.code()[i],
    {
        let letter = name.get_char(place);
        assert(letter == kind.letters()[place as int]);
        if payload[offset + place] != letter as u8 {
            proof {
                let spelled = payload@.subrange(offset as int, offset + 4);
                assert(spelled[place as int] == payload@[offset + place]);
                assert(kind.code()[place as int] == letter as u8);
            }
            return false;
        }
    }
    assert(payload@.subrange(offset as int, offset + 4) =~= kind.code());
    true
}

fn next_box(payload: &[u8], offset: usize) -> (found: Option<BoxAt>)
    requires
        offset <= payload@.len(),
    ensures
        found == box_at(payload@, offset as int),
{
    let length: usize = payload.len();
    if length - offset < 8 {
        return None;
    }
    let short: u32 = match u32_at(payload, offset as u64) {
        Ok(value) => value,
        Err(_) => {
            return None;
        },
    };
    let (header, size): (usize, usize) = if short == 0 {
        (8, length - offset)
    } else if short == 1 {
        match u64_at(payload, offset as u64 + 8) {
            Ok(large) => (16, large as usize),
            Err(_) => {
                return None;
            },
        }
    } else {
        (8, short as usize)
    };
    if size < header || size > length - offset {
        return None;
    }
    Some(BoxAt { kind: offset + 4, start: offset + header, end: offset + size })
}

/// The boxes of a container's payload, in their order.
pub fn children(payload: &[u8]) -> (list: Vec<BoxAt>)
    ensures
        list@ == boxes(payload@, 0),
{
    let mut list: Vec<BoxAt> = Vec::new();
    let mut offset: usize = 0;
    let mut more = true;
    while more
        invariant
            offset <= payload@.len(),
            more ==> boxes(payload@, 0) == list@ + boxes(payload@, offset as int),
            !more ==> boxes(payload@, 0) == list@,
        decreases payload@.len() - offset, (if more { 1int } else { 0int }),
    {
        let length: usize = payload.len();
        proof {
            box_at_is_inside(payload@, offset as int);
        }
        match next_box(payload, offset) {
            None => {
                more = false;
                assert(boxes(payload@, offset as int) =~= Seq::empty());
                assert(boxes(payload@, 0) =~= list@);
            },
            Some(found) => {
                let ghost before = list@;
                list.push(found);
                offset = found.end;
                assert(list@ + boxes(payload@, offset as int) =~= before + (seq![found] + boxes(
                    payload@,
                    offset as int,
                )));
            },
        }
    }
    list
}

proof fn first_is_one(payload: Seq<u8>, list: Seq<BoxAt>, kind: Kind, one: int, other: int)
    requires
        first_of(payload, list, kind, one),
        first_of(payload, list, kind, other),
    ensures
        one == other,
{
    if one < other {
        assert(!is_kind(payload, list[one], kind));
    } else if other < one {
        assert(!is_kind(payload, list[other], kind));
    }
}

/// The payload of the first box of `kind` in a container's.
pub fn child<'a>(payload: &'a [u8], kind: Kind) -> (result: Result<&'a [u8], Fault>)
    ensures
        match child_of(payload@, kind) {
            Ok(inner) => result matches Ok(found) && found@ == inner,
            Err(words) => result matches Err(fault) && fault.says(FaultKind::InvalidData, words),
        },
{
    let list = children(payload);
    let length: usize = payload.len();
    proof {
        boxes_are_inside(payload@, 0);
    }
    let count: usize = list.len();
    for index in 0..count
        invariant
            count == list@.len(),
            list@ == boxes(payload@, 0),
            payload@.len() <= usize::MAX,
            forall|k: int|
                0 <= k < list@.len() ==> {
                    let found = #[trigger] boxes(payload@, 0)[k];
                    4 <= found.kind && found.kind + 4 <= found.start <= found.end <= payload@.len()
                },
            forall|before: int| 0 <= before < index ==> !is_kind(payload@, #[trigger] list@[before], kind),
    {
        let found = list[index];
        assert(found == boxes(payload@, 0)[index as int]);
        if spells(payload, found.kind, kind) {
            proof {
                assert(first_of(payload@, list@, kind, index as int));
                let chosen = choose|chosen: int| first_of(payload@, list@, kind, chosen);
                first_is_one(payload@, list@, kind, index as int, chosen);
            }
            return Ok(slice_subrange(payload, found.start, found.end));
        }
    }
    let mut message = String::from_str("no ");
    message.append(kind.name());
    message.append(" box");
    Err(Fault { kind: FaultKind::InvalidData, message })
}

/// One coded frame of the video track.
#[derive(Clone, Copy, Debug, PartialEq, Eq, Structural)]
pub struct Sample {
    /// Where the sample starts in the file.
    pub offset: u64,
    pub size: usize,
    /// Ticks of the track's timescale the frame lasts.
    pub duration: u32,
    /// Whether the sample starts a group of pictures.
    pub keyframe: bool,
}

/// An H.264 video track, with its samples in decoding order.
#[derive(Clone, Debug)]
pub struct VideoTrack {
    pub width: usize,
    pub height: usize,
    /// Ticks per second of the sample durations.
    pub timescale: u32,
    /// The parameter sets of the avcC record with Annex B start codes, which a decoder takes
    /// before the first access unit.
    pub parameter_sets: Vec<u8>,
    pub samples: Vec<Sample>,
}

/// Whether `result` is what `expected` says, an error being one of invalid data.
pub open spec fn agrees<T>(result: Result<Vec<T>, Fault>, expected: Result<Seq<T>, Words>) -> bool {
    match expected {
        Ok(values) => result matches Ok(list) && list@ == values,
        Err(words) => result matches Err(fault) && fault.says(FaultKind::InvalidData, words),
    }
}

/// The sizes of a sample size table: one size for all where it is given, and a list otherwise.
pub open spec fn sizes_in(payload: Seq<u8>) -> Result<Seq<usize>, Words> {
    match (number_at(payload, 4, 4), number_at(payload, 8, 4)) {
        (Ok(uniform), Ok(count)) => if uniform > 0 {
            Ok(Seq::new(count, |index: int| uniform as usize))
        } else if count > 0 && 12 + count * 4 > payload.len() {
            Err(field_cut())
        } else {
            Ok(Seq::new(count, |index: int| big_endian(payload.subrange(12 + index * 4, 16 + index * 4)) as usize))
        },
        _ => Err(field_cut()),
    }
}

pub fn sample_sizes(payload: &[u8]) -> (sizes: Result<Vec<usize>, Fault>)
    ensures
        agrees(sizes, sizes_in(payload@)),
{
    let uniform: u32 = match u32_at(payload, 4) {
        Ok(value) => value,
        Err(fault) => {
            return Err(fault);
        },
    };
    let count: u32 = match u32_at(payload, 8) {
        Ok(value) => value,
        Err(fault) => {
            return Err(fault);
        },
    };
    let mut sizes: Vec<usize> = Vec::new();
    for index in 0..count
        invariant
            number_at(payload@, 4, 4) == Ok::<nat, Words>(uniform as nat),
            number_at(payload@, 8, 4) == Ok::<nat, Words>(count as nat),
            sizes@.len() == index,
            uniform > 0 ==> forall|k: int| 0 <= k < index ==> (#[trigger] sizes@[k]) == uniform,
            uniform == 0 ==> (index > 0 ==> 12 + index * 4 <= payload@.len()),
            uniform == 0 ==> forall|k: int|
                0 <= k < index ==> (#[trigger] sizes@[k]) == big_endian(payload@.subrange(12 + k * 4, 16 + k * 4)) as usize,
    {
        if uniform > 0 {
            sizes.push(uniform as usize);
        } else {
            match u32_at(payload, 12 + index as u64 * 4) {
                Ok(size) => {
                    sizes.push(size as usize);
                },
                Err(fault) => {
                    return Err(fault);
                },
            }
        }
    }
    proof {
        assert(sizes@ =~= sizes_in(payload@)->Ok_0);
    }
    Ok(sizes)
}

/// The durations that the first `entries` runs of a time-to-sample table spell out, each cut to
/// `samples`.
pub open spec fn spelled_durations(payload: Seq<u8>, samples: int, entries: int) -> Seq<u32>
    decreases entries,
{
    if entries <= 0 {
        Seq::empty()
    } else {
        let place = 8 + (entries - 1) * 8;
        let count = big_endian(payload.subrange(place, place + 4));
        let delta = big_endian(payload.subrange(place + 4, place + 8));
        spelled_durations(payload, samples, entries - 1) + Seq::new(
            arithmetic::min(count as int, samples) as nat,
            |index: int| delta as u32,
        )
    }
}

/// The duration of every sample. A table may cover fewer samples than the file holds; the last
/// duration carries on.
pub open spec fn durations_in(payload: Seq<u8>, samples: nat) -> Result<Seq<u32>, Words> {
    match number_at(payload, 4, 4) {
        Err(words) => Err(words),
        Ok(entries) => if entries > 0 && 8 + entries * 8 > payload.len() {
            Err(field_cut())
        } else {
            let spelled = spelled_durations(payload, samples as int, entries as int);
            Ok(
                Seq::new(
                    samples,
                    |index: int|
                        if index < spelled.len() {
                            spelled[index]
                        } else if spelled.len() > 0 {
                            spelled.last()
                        } else {
                            0
                        },
                ),
            )
        },
    }
}

pub fn sample_durations(payload: &[u8], samples: usize) -> (durations: Result<Vec<u32>, Fault>)
    ensures
        agrees(durations, durations_in(payload@, samples as nat)),
{
    let entries: u32 = match u32_at(payload, 4) {
        Ok(value) => value,
        Err(fault) => {
            return Err(fault);
        },
    };
    let mut durations: Vec<u32> = Vec::new();
    for entry in 0..entries
        invariant
            number_at(payload@, 4, 4) == Ok::<nat, Words>(entries as nat),
            entry > 0 ==> 8 + entry * 8 <= payload@.len(),
            durations@ == spelled_durations(payload@, samples as int, entry as int),
    {
        let count: u32 = match u32_at(payload, 8 + entry as u64 * 8) {
            Ok(value) => value,
            Err(fault) => {
                return Err(fault);
            },
        };
        let delta: u32 = match u32_at(payload, 12 + entry as u64 * 8) {
            Ok(value) => value,
            Err(fault) => {
                return Err(fault);
            },
        };
        let repeats: usize = arithmetic::least(count as usize, samples);
        let ghost before = durations@;
        for repeat in 0..repeats
            invariant
                durations@ == before + Seq::new(repeat as nat, |index: int| delta),
        {
            durations.push(delta);
            assert(durations@ =~= before + Seq::new((repeat + 1) as nat, |index: int| delta));
        }
        proof {
            let place = 8 + entry * 8;
            assert(durations@ =~= spelled_durations(payload@, samples as int, entry + 1));
        }
    }
    let ghost spelled = durations@;
    let spelled_len: usize = durations.len();
    let last: u32 = if spelled_len > 0 {
        durations[spelled_len - 1]
    } else {
        0
    };
    if spelled_len > samples {
        durations.truncate(samples);
    }
    while durations.len() < samples
        invariant
            spelled.len() == spelled_len,
            last == (if spelled_len > 0 {
                spelled[spelled_len - 1]
            } else {
                0
            }),
            durations@.len() <= samples,
            spelled_len <= samples ==> durations@.len() >= spelled_len,
            spelled_len > samples ==> durations@.len() == samples,
            forall|k: int|
                0 <= k < durations@.len() ==> (#[trigger] durations@[k]) == (if k < spelled_len {
                    spelled[k]
                } else {
                    last
                }),
        decreases samples - durations@.len(),
    {
        durations.push(last);
    }
    assert(durations@ =~= durations_in(payload@, samples as nat)->Ok_0);
    Ok(durations)
}

/// A table of `count` numbers of `width` bytes behind its count.
pub open spec fn numbers_in(payload: Seq<u8>, width: int) -> Result<Seq<u64>, Words> {
    match number_at(payload, 4, 4) {
        Err(words) => Err(words),
        Ok(count) => if count > 0 && 8 + count * width > payload.len() {
            Err(field_cut())
        } else {
            Ok(
                Seq::new(
                    count,
                    |index: int|
                        big_endian(payload.subrange(8 + index * width, 8 + index * width + width)) as u64,
                ),
            )
        },
    }
}

/// Where every chunk starts in the file, from the 32-bit table where there is one and the 64-bit one
/// otherwise.
pub open spec fn offsets_in(table: Seq<u8>) -> Result<Seq<u64>, Words> {
    match child_of(table, Kind::Stco) {
        Ok(payload) => numbers_in(payload, 4),
        Err(_) => match child_of(table, Kind::Co64) {
            Ok(payload) => numbers_in(payload, 8),
            Err(words) => Err(words),
        },
    }
}

fn numbers(payload: &[u8], wide: bool) -> (list: Result<Vec<u64>, Fault>)
    ensures
        agrees(
            list,
            numbers_in(
                payload@,
                if wide {
                    8
                } else {
                    4
                },
            ),
        ),
{
    let count: u32 = match u32_at(payload, 4) {
        Ok(value) => value,
        Err(fault) => {
            return Err(fault);
        },
    };
    let ghost width: int = if wide {
        8
    } else {
        4
    };
    let mut list: Vec<u64> = Vec::new();
    for index in 0..count
        invariant
            number_at(payload@, 4, 4) == Ok::<nat, Words>(count as nat),
            width == (if wide {
                8int
            } else {
                4int
            }),
            list@.len() == index,
            index > 0 ==> 8 + index * width <= payload@.len(),
            forall|k: int|
                0 <= k < index ==> (#[trigger] list@[k]) == big_endian(
                    payload@.subrange(8 + k * width, 8 + k * width + width),
                ) as u64,
    {
        let value: Result<u64, Fault> = if wide {
            u64_at(payload, 8 + index as u64 * 8)
        } else {
            match u32_at(payload, 8 + index as u64 * 4) {
                Ok(value) => Ok(value as u64),
                Err(fault) => Err(fault),
            }
        };
        match value {
            Ok(value) => {
                list.push(value);
            },
            Err(fault) => {
                return Err(fault);
            },
        }
    }
    assert(list@ =~= numbers_in(payload@, width)->Ok_0);
    Ok(list)
}

pub fn chunk_offsets(table: &[u8]) -> (offsets: Result<Vec<u64>, Fault>)
    ensures
        agrees(offsets, offsets_in(table@)),
{
    match child(table, Kind::Stco) {
        Ok(payload) => numbers(payload, false),
        Err(_) => match child(table, Kind::Co64) {
            Ok(payload) => numbers(payload, true),
            Err(fault) => Err(fault),
        },
    }
}

/// Every run of chunks as (first chunk, samples per chunk), the first chunk counted from zero.
pub open spec fn runs_in(payload: Seq<u8>) -> Result<Seq<(usize, usize)>, Words> {
    match number_at(payload, 4, 4) {
        Err(words) => Err(words),
        Ok(entries) => if entries > 0 && 4 + entries * 12 > payload.len() {
            Err(field_cut())
        } else {
            Ok(
                Seq::new(
                    entries,
                    |entry: int|
                        {
                            let place = 8 + entry * 12;
                            let first = big_endian(payload.subrange(place, place + 4));
                            (
                                arithmetic::max(0, first - 1) as usize,
                                big_endian(payload.subrange(place + 4, place + 8)) as usize,
                            )
                        },
                ),
            )
        },
    }
}

pub fn sample_to_chunk(payload: &[u8]) -> (runs: Result<Vec<(usize, usize)>, Fault>)
    ensures
        agrees(runs, runs_in(payload@)),
{
    let entries: u32 = match u32_at(payload, 4) {
        Ok(value) => value,
        Err(fault) => {
            return Err(fault);
        },
    };
    let mut runs: Vec<(usize, usize)> = Vec::new();
    for entry in 0..entries
        invariant
            number_at(payload@, 4, 4) == Ok::<nat, Words>(entries as nat),
            runs@.len() == entry,
            entry > 0 ==> 4 + entry * 12 <= payload@.len(),
            forall|k: int|
                0 <= k < entry ==> (#[trigger] runs@[k]) == (
                    arithmetic::max(0, big_endian(payload@.subrange(8 + k * 12, 12 + k * 12)) - 1) as usize,
                    big_endian(payload@.subrange(12 + k * 12, 16 + k * 12)) as usize,
                ),
    {
        let first: u32 = match u32_at(payload, 8 + entry as u64 * 12) {
            Ok(value) => value,
            Err(fault) => {
                return Err(fault);
            },
        };
        let per_chunk: u32 = match u32_at(payload, 12 + entry as u64 * 12) {
            Ok(value) => value,
            Err(fault) => {
                return Err(fault);
            },
        };
        let from_zero: usize = (first as usize).saturating_sub(1);
        runs.push((from_zero, per_chunk as usize));
    }
    assert(runs@ =~= runs_in(payload@)->Ok_0);
    Ok(runs)
}

pub open spec fn numbered_zero() -> Words {
    "a sync sample is numbered zero"@
}

/// The first `count` entries of a sync sample table, counted from zero.
pub open spec fn sync_entries(payload: Seq<u8>, count: int) -> Result<Seq<usize>, Words>
    decreases count,
{
    if count <= 0 {
        Ok(Seq::empty())
    } else {
        match sync_entries(payload, count - 1) {
            Err(words) => Err(words),
            Ok(before) => match number_at(payload, 8 + (count - 1) * 4, 4) {
                Err(words) => Err(words),
                Ok(number) => if number == 0 {
                    Err(numbered_zero())
                } else {
                    Ok(before.push((number - 1) as usize))
                },
            },
        }
    }
}

/// The samples that start a group of pictures, or `None` when every sample does.
pub open spec fn sync_in(table: Seq<u8>) -> Result<Option<Seq<usize>>, Words> {
    match child_of(table, Kind::Stss) {
        Err(_) => Ok(None),
        Ok(payload) => match number_at(payload, 4, 4) {
            Err(words) => Err(words),
            Ok(count) => match sync_entries(payload, count as int) {
                Err(words) => Err(words),
                Ok(entries) => Ok(Some(entries)),
            },
        },
    }
}

proof fn sync_fails_on(payload: Seq<u8>, count: int, more: int)
    requires
        0 <= count <= more,
        sync_entries(payload, count) is Err,
    ensures
        sync_entries(payload, more) == sync_entries(payload, count),
    decreases more,
{
    if count < more {
        sync_fails_on(payload, count, more - 1);
    }
}

pub fn sync_samples(table: &[u8]) -> (sync: Result<Option<Vec<usize>>, Fault>)
    ensures
        match sync_in(table@) {
            Ok(None) => sync matches Ok(None),
            Ok(Some(entries)) => sync matches Ok(Some(list)) && list@ == entries,
            Err(words) => sync matches Err(fault) && fault.says(FaultKind::InvalidData, words),
        },
{
    let payload = match child(table, Kind::Stss) {
        Ok(payload) => payload,
        Err(_) => {
            return Ok(None);
        },
    };
    let count: u32 = match u32_at(payload, 4) {
        Ok(value) => value,
        Err(fault) => {
            return Err(fault);
        },
    };
    let mut list: Vec<usize> = Vec::new();
    for index in 0..count
        invariant
            child_of(table@, Kind::Stss) == Ok::<Seq<u8>, Words>(payload@),
            number_at(payload@, 4, 4) == Ok::<nat, Words>(count as nat),
            sync_entries(payload@, index as int) == Ok::<Seq<usize>, Words>(list@),
    {
        match u32_at(payload, 8 + index as u64 * 4) {
            Ok(number) => {
                if number == 0 {
                    proof {
                        assert(sync_entries(payload@, index + 1) == Err::<Seq<usize>, Words>(numbered_zero()));
                        sync_fails_on(payload@, index + 1, count as int);
                    }
                    return Err(invalid("a sync sample is numbered zero"));
                }
                list.push(number as usize - 1);
            },
            Err(fault) => {
                proof {
                    assert(sync_entries(payload@, index + 1) is Err);
                    sync_fails_on(payload@, index + 1, count as int);
                }
                return Err(fault);
            },
        }
    }
    Ok(Some(list))
}

/// The run of chunks in effect once those starting at or before `chunk` were passed, from `run` on.
pub open spec fn advanced(runs: Seq<(usize, usize)>, run: int, chunk: int) -> int
    decreases runs.len() - run,
{
    if 0 <= run && run + 1 < runs.len() && runs[run + 1].0 <= chunk {
        advanced(runs, run + 1, chunk)
    } else {
        run
    }
}

/// The run of chunks that `chunk` belongs to.
pub open spec fn run_at(runs: Seq<(usize, usize)>, chunk: int) -> int
    decreases chunk,
{
    advanced(
        runs,
        if chunk <= 0 {
            0
        } else {
            run_at(runs, chunk - 1)
        },
        chunk,
    )
}

/// How many of `total` samples the first `chunks` chunks hold.
pub open spec fn held(runs: Seq<(usize, usize)>, total: int, chunks: int) -> int
    decreases chunks,
{
    if chunks <= 0 {
        0
    } else {
        arithmetic::min(total, held(runs, total, chunks - 1) + runs[run_at(runs, chunks - 1)].1)
    }
}

/// The bytes of the samples from `start` on and before `end`.
pub open spec fn bytes_between(sizes: Seq<usize>, start: int, end: int) -> nat
    decreases end - start,
{
    if start >= end {
        0
    } else {
        bytes_between(sizes, start, end - 1) + sizes[end - 1] as nat
    }
}

/// What the tables of a sample table hold.
pub ghost struct Tables {
    pub sizes: Seq<usize>,
    pub durations: Seq<u32>,
    pub offsets: Seq<u64>,
    pub runs: Seq<(usize, usize)>,
    pub sync: Option<Seq<usize>>,
}

impl Tables {
    /// How many samples the chunks before `chunk` hold, which is the first sample of it.
    pub open spec fn first(self, chunk: int) -> int {
        held(self.runs, self.sizes.len() as int, chunk)
    }

    /// The sample `index`, which lies in `chunk` behind the samples before it there.
    pub open spec fn sample(self, chunk: int, index: int) -> Sample {
        Sample {
            offset: (self.offsets[chunk] + bytes_between(self.sizes, self.first(chunk), index)) as u64,
            size: self.sizes[index],
            duration: self.durations[index],
            keyframe: match self.sync {
                None => true,
                Some(entries) => entries.contains(index as usize),
            },
        }
    }

    /// The samples of the first `chunks` chunks, in decoding order.
    pub open spec fn walked(self, chunks: int) -> Seq<Sample>
        decreases chunks,
    {
        if chunks <= 0 {
            Seq::empty()
        } else {
            let first = self.first(chunks - 1);
            self.walked(chunks - 1) + Seq::new(
                (self.first(chunks) - first) as nat,
                |k: int| self.sample(chunks - 1, first + k),
            )
        }
    }

    /// Whether the samples of `chunk` end where a file can.
    pub open spec fn ends_in_a_file(self, chunk: int) -> bool {
        self.offsets[chunk] + bytes_between(self.sizes, self.first(chunk), self.first(chunk + 1)) <= u64::MAX
    }

    /// All the samples, or why the tables do not make any.
    pub open spec fn samples(self) -> Result<Seq<Sample>, Words> {
        let chunks = self.offsets.len() as int;
        if chunks > 0 && self.runs.len() == 0 {
            Err("the sample to chunk table is empty"@)
        } else if exists|chunk: int| 0 <= chunk < chunks && !(#[trigger] self.ends_in_a_file(chunk)) {
            Err("a sample ends past what a file can hold"@)
        } else if self.first(chunks) != self.sizes.len() {
            Err(
                "the chunks hold "@ + text::decimal(self.first(chunks) as nat) + " of the "@ + text::decimal(
                    self.sizes.len(),
                ) + " samples"@,
            )
        } else {
            Ok(self.walked(chunks))
        }
    }
}

/// The tables of a sample table, or what is wrong with the first that is not there.
pub open spec fn tables_in(table: Seq<u8>) -> Result<Tables, Words> {
    match child_of(table, Kind::Stsz) {
        Err(words) => Err(words),
        Ok(stsz) => match sizes_in(stsz) {
            Err(words) => Err(words),
            Ok(sizes) => match child_of(table, Kind::Stts) {
                Err(words) => Err(words),
                Ok(stts) => match durations_in(stts, sizes.len()) {
                    Err(words) => Err(words),
                    Ok(durations) => match offsets_in(table) {
                        Err(words) => Err(words),
                        Ok(offsets) => match child_of(table, Kind::Stsc) {
                            Err(words) => Err(words),
                            Ok(stsc) => match runs_in(stsc) {
                                Err(words) => Err(words),
                                Ok(runs) => match sync_in(table) {
                                    Err(words) => Err(words),
                                    Ok(sync) => Ok(Tables { sizes, durations, offsets, runs, sync }),
                                },
                            },
                        },
                    },
                },
            },
        },
    }
}

/// The samples of a sample table in decoding order, walking the chunks they sit in.
pub open spec fn samples_in(table: Seq<u8>) -> Result<Seq<Sample>, Words> {
    match tables_in(table) {
        Err(words) => Err(words),
        Ok(tables) => tables.samples(),
    }
}

proof fn advanced_is_a_run(runs: Seq<(usize, usize)>, run: int, chunk: int)
    requires
        0 <= run < runs.len(),
    ensures
        0 <= advanced(runs, run, chunk) < runs.len(),
    decreases runs.len() - run,
{
    if run + 1 < runs.len() && runs[run + 1].0 <= chunk {
        advanced_is_a_run(runs, run + 1, chunk);
    }
}

proof fn run_at_is_a_run(runs: Seq<(usize, usize)>, chunk: int)
    requires
        runs.len() > 0,
    ensures
        0 <= run_at(runs, chunk) < runs.len(),
    decreases chunk,
{
    if chunk > 0 {
        run_at_is_a_run(runs, chunk - 1);
        advanced_is_a_run(runs, run_at(runs, chunk - 1), chunk);
    } else {
        advanced_is_a_run(runs, 0, chunk);
    }
}

proof fn held_grows(runs: Seq<(usize, usize)>, total: int, chunks: int)
    requires
        0 <= chunks,
        0 <= total,
    ensures
        0 <= held(runs, total, chunks) <= total,
        chunks > 0 ==> held(runs, total, chunks - 1) <= held(runs, total, chunks),
    decreases chunks,
{
    if chunks > 0 {
        held_grows(runs, total, chunks - 1);
    }
}

proof fn bytes_between_grow(sizes: Seq<usize>, start: int, end: int, later: int)
    requires
        0 <= start <= end <= later <= sizes.len(),
    ensures
        bytes_between(sizes, start, end) <= bytes_between(sizes, start, later),
    decreases later - end,
{
    if end < later {
        bytes_between_grow(sizes, start, end, later - 1);
    }
}

/// Which of `total` samples start a group of pictures.
fn marks(sync: &Option<Vec<usize>>, total: usize) -> (marks: Vec<bool>)
    ensures
        marks@.len() == total,
        forall|index: int|
            0 <= index < total ==> (#[trigger] marks@[index]) == (match sync {
                None => true,
                Some(entries) => entries@.contains(index as usize),
            }),
{
    match sync {
        None => vec![true; total],
        Some(entries) => {
            let mut marks: Vec<bool> = vec![false; total];
            let count: usize = entries.len();
            for place in 0..count
                invariant
                    count == entries@.len(),
                    marks@.len() == total,
                    forall|index: int|
                        0 <= index < total ==> (#[trigger] marks@[index]) == (exists|k: int|
                            0 <= k < place && entries@[k] == index),
            {
                let index: usize = entries[place];
                if index < total {
                    let ghost before = marks@;
                    marks.set(index, true);
                    assert forall|other: int| 0 <= other < total implies (#[trigger] marks@[other]) == (exists|k: int|
                        0 <= k < place + 1 && entries@[k] == other) by {
                        assert(before[other] == (exists|k: int| 0 <= k < place && entries@[k] == other));
                        if other == index {
                            assert(entries@[place as int] == other);
                        }
                    }
                } else {
                    assert forall|other: int| 0 <= other < total implies (#[trigger] marks@[other]) == (exists|k: int|
                        0 <= k < place + 1 && entries@[k] == other) by {}
                }
            }
            assert forall|index: int| 0 <= index < total implies (#[trigger] marks@[index]) == entries@.contains(
                index as usize,
            ) by {
                if entries@.contains(index as usize) {
                    let k = choose|k: int| 0 <= k < entries@.len() && entries@[k] == index as usize;
                    assert(entries@[k] == index);
                }
            }
            marks
        },
    }
}

/// Walks the chunks of the tables.
fn walk(
    sizes: &Vec<usize>,
    durations: &Vec<u32>,
    offsets: &Vec<u64>,
    runs: &Vec<(usize, usize)>,
    sync: &Option<Vec<usize>>,
) -> (result: Result<Vec<Sample>, Fault>)
    requires
        durations@.len() == sizes@.len(),
    ensures
        agrees(
            result,
            (Tables {
                sizes: sizes@,
                durations: durations@,
                offsets: offsets@,
                runs: runs@,
                sync: match sync {
                    None => None,
                    Some(entries) => Some(entries@),
                },
            }).samples(),
        ),
{
    let ghost tables = Tables {
        sizes: sizes@,
        durations: durations@,
        offsets: offsets@,
        runs: runs@,
        sync: match sync {
            None => None,
            Some(entries) => Some(entries@),
        },
    };
    let total: usize = sizes.len();
    let marked = marks(sync, total);
    let mut samples: Vec<Sample> = Vec::new();
    let mut run: usize = 0;
    let chunks: usize = offsets.len();
    if chunks > 0 && runs.len() == 0 {
        return Err(invalid("the sample to chunk table is empty"));
    }
    let run_count: usize = runs.len();
    for chunk in 0..chunks
        invariant
            total == sizes@.len(),
            durations@.len() == total,
            chunks == offsets@.len(),
            run_count == runs@.len(),
            chunks > 0 ==> run < run_count,
            tables.sizes == sizes@,
            tables.durations == durations@,
            tables.offsets == offsets@,
            tables.runs == runs@,
            tables.sync == (match sync {
                None => None::<Seq<usize>>,
                Some(entries) => Some(entries@),
            }),
            marked@.len() == total,
            forall|index: int|
                0 <= index < total ==> (#[trigger] marked@[index]) == (match sync {
                    None => true,
                    Some(entries) => entries@.contains(index as usize),
                }),
            chunk == 0 ==> run == 0,
            chunk > 0 ==> run == run_at(runs@, chunk - 1),
            samples@.len() == tables.first(chunk as int),
            samples@ == tables.walked(chunk as int),
            forall|before: int| 0 <= before < chunk ==> #[trigger] tables.ends_in_a_file(before),
    {
        let ghost first = tables.first(chunk as int);
        let ghost earlier = samples@;
        proof {
            held_grows(runs@, total as int, chunk as int);
            held_grows(runs@, total as int, chunk + 1);
        }
        while run + 1 < run_count && runs[run + 1].0 <= chunk
            invariant
                run_count == runs@.len(),
                0 <= run < run_count,
                advanced(runs@, run as int, chunk as int) == run_at(runs@, chunk as int),
            decreases run_count - run,
        {
            run = run + 1;
        }
        let per_chunk: usize = runs[run].1;
        assert(tables.first(chunk + 1) == arithmetic::min(total as int, first + per_chunk));
        let mut position: u64 = offsets[chunk];
        let mut placed: usize = 0;
        assert(samples@ =~= earlier + Seq::new(0, |k: int| tables.sample(chunk as int, first + k)));
        while placed < per_chunk && samples.len() < total
            invariant
                total == sizes@.len(),
                durations@.len() == total,
                chunk < chunks,
                chunks == offsets@.len(),
                runs@.len() > 0,
                tables.sizes == sizes@,
                tables.durations == durations@,
                tables.offsets == offsets@,
                tables.runs == runs@,
                tables.sync == (match sync {
                    None => None::<Seq<usize>>,
                    Some(entries) => Some(entries@),
                }),
                marked@.len() == total,
                forall|index: int|
                    0 <= index < total ==> (#[trigger] marked@[index]) == (match sync {
                        None => true,
                        Some(entries) => entries@.contains(index as usize),
                    }),
                first == tables.first(chunk as int),
                0 <= first,
                placed <= per_chunk,
                earlier.len() == first,
                samples@.len() == first + placed,
                samples@.len() <= total,
                tables.first(chunk + 1) == arithmetic::min(total as int, first + per_chunk),
                position == offsets@[chunk as int] + bytes_between(sizes@, first, first + placed),
                samples@ == earlier + Seq::new(placed as nat, |k: int| tables.sample(chunk as int, first + k)),
            decreases per_chunk - placed,
        {
            let index: usize = samples.len();
            let size: usize = sizes[index];
            samples.push(
                Sample { offset: position, size, duration: durations[index], keyframe: marked[index] },
            );
            proof {
                assert(samples@.last() == tables.sample(chunk as int, first + placed));
                assert(samples@ =~= earlier + Seq::new(
                    (placed + 1) as nat,
                    |k: int| tables.sample(chunk as int, first + k),
                ));
                assert(bytes_between(sizes@, first, first + placed + 1) == bytes_between(sizes@, first, first + placed)
                    + size);
                bytes_between_grow(sizes@, first, first + placed + 1, tables.first(chunk + 1));
            }
            if size as u64 > u64::MAX - position {
                assert(!tables.ends_in_a_file(chunk as int));
                return Err(invalid("a sample ends past what a file can hold"));
            }
            position = position + size as u64;
            placed = placed + 1;
        }
        assert(tables.first(chunk + 1) == first + placed);
        assert(tables.ends_in_a_file(chunk as int));
        assert(samples@ =~= tables.walked(chunk + 1));
    }
    if samples.len() != total {
        let mut message = String::from_str("the chunks hold ");
        text::push_size(&mut message, samples.len());
        message.append(" of the ");
        text::push_size(&mut message, total);
        message.append(" samples");
        return Err(Fault { kind: FaultKind::InvalidData, message });
    }
    Ok(samples)
}

/// The samples of a sample table in decoding order, walking the chunks they sit in.
pub fn samples(table: &[u8]) -> (result: Result<Vec<Sample>, Fault>)
    ensures
        agrees(result, samples_in(table@)),
{
    let sizes = match child(table, Kind::Stsz) {
        Err(fault) => {
            return Err(fault);
        },
        Ok(payload) => match sample_sizes(payload) {
            Err(fault) => {
                return Err(fault);
            },
            Ok(sizes) => sizes,
        },
    };
    let durations = match child(table, Kind::Stts) {
        Err(fault) => {
            return Err(fault);
        },
        Ok(payload) => match sample_durations(payload, sizes.len()) {
            Err(fault) => {
                return Err(fault);
            },
            Ok(durations) => durations,
        },
    };
    let offsets = match chunk_offsets(table) {
        Err(fault) => {
            return Err(fault);
        },
        Ok(offsets) => offsets,
    };
    let runs = match child(table, Kind::Stsc) {
        Err(fault) => {
            return Err(fault);
        },
        Ok(payload) => match sample_to_chunk(payload) {
            Err(fault) => {
                return Err(fault);
            },
            Ok(runs) => runs,
        },
    };
    let sync = match sync_samples(table) {
        Err(fault) => {
            return Err(fault);
        },
        Ok(sync) => sync,
    };
    walk(&sizes, &durations, &offsets, &runs, &sync)
}

/// Whether `sample` is the sample `index` and lies in `chunk`.
pub open spec fn lies_in(tables: Tables, chunk: int, index: int, sample: Sample) -> bool {
    &&& tables.first(chunk) <= index < tables.first(chunk + 1)
    &&& sample == tables.sample(chunk, index)
}

proof fn walked_keeps(tables: Tables, chunks: int, index: int)
    requires
        0 <= chunks,
    ensures
        tables.walked(chunks).len() == tables.first(chunks),
        0 <= index < tables.first(chunks) ==> exists|chunk: int|
            0 <= chunk < chunks && #[trigger] lies_in(tables, chunk, index, tables.walked(chunks)[index]),
    decreases chunks,
{
    held_grows(tables.runs, tables.sizes.len() as int, chunks);
    if chunks > 0 {
        walked_keeps(tables, chunks - 1, index);
        held_grows(tables.runs, tables.sizes.len() as int, chunks - 1);
        let first = tables.first(chunks - 1);
        let before = tables.walked(chunks - 1);
        let all = tables.walked(chunks);
        if 0 <= index < first {
            let chunk = choose|chunk: int|
                0 <= chunk < chunks - 1 && #[trigger] lies_in(tables, chunk, index, before[index]);
            assert(all[index] == before[index]);
            assert(lies_in(tables, chunk, index, all[index]));
        } else if first <= index < tables.first(chunks) {
            assert(all[index] == tables.sample(chunks - 1, index));
            assert(lies_in(tables, chunks - 1, index, all[index]));
        }
    }
}

/// The samples are those of the tables, each once and in order: as many as there are sizes, and the
/// size, the duration and the sync mark of each are the table's. Each lies in one chunk, behind the
/// samples before it there.
pub proof fn samples_are_the_tables(tables: Tables, index: int)
    requires
        tables.samples() is Ok,
        0 <= index < tables.sizes.len(),
    ensures
        tables.samples()->Ok_0.len() == tables.sizes.len(),
        tables.samples()->Ok_0[index].size == tables.sizes[index],
        tables.samples()->Ok_0[index].duration == tables.durations[index],
        tables.samples()->Ok_0[index].keyframe == (tables.sync matches Some(entries) ==> entries.contains(
            index as usize,
        )),
        exists|chunk: int|
            0 <= chunk < tables.offsets.len() && tables.first(chunk) <= index < tables.first(chunk + 1)
                && tables.samples()->Ok_0[index].offset == tables.offsets[chunk] + #[trigger] bytes_between(
                tables.sizes,
                tables.first(chunk),
                index,
            ),
{
    let chunks = tables.offsets.len() as int;
    walked_keeps(tables, chunks, index);
    let all = tables.walked(chunks);
    assert(all[index] == tables.samples()->Ok_0[index]);
    let chunk = choose|chunk: int| 0 <= chunk < chunks && #[trigger] lies_in(tables, chunk, index, all[index]);
    assert(tables.ends_in_a_file(chunk));
    held_grows(tables.runs, tables.sizes.len() as int, chunk);
    held_grows(tables.runs, tables.sizes.len() as int, chunk + 1);
    bytes_between_grow(tables.sizes, tables.first(chunk), index, tables.first(chunk + 1));
    assert(all[index].offset == tables.offsets[chunk] + bytes_between(tables.sizes, tables.first(chunk), index));
}

/// Whether the box number `index` of `list` is the first that describes H.264 samples.
pub open spec fn first_avc(payload: Seq<u8>, list: Seq<BoxAt>, index: int) -> bool {
    &&& 0 <= index < list.len()
    &&& is_kind(payload, list[index], Kind::Avc1) || is_kind(payload, list[index], Kind::Avc3)
    &&& forall|before: int|
        0 <= before < index ==> !is_kind(payload, #[trigger] list[before], Kind::Avc1) && !is_kind(
            payload,
            list[before],
            Kind::Avc3,
        )
}

/// The `count` parameter sets from `offset` of an avcC record on, as Annex B, and where they end.
pub open spec fn sets_in(record: Seq<u8>, offset: int, count: int) -> Result<(Seq<u8>, int), Words>
    decreases count,
{
    if count <= 0 {
        Ok((Seq::empty(), offset))
    } else {
        match number_at(record, offset, 2) {
            Err(words) => Err(words),
            Ok(length) => {
                let start = offset + 2;
                if start + length > record.len() {
                    Err("a parameter set runs past the avcC record"@)
                } else {
                    behind(
                        start_code() + record.subrange(start, start + length),
                        sets_in(record, start + length, count - 1),
                    )
                }
            },
        }
    }
}

/// `rest` with `bytes` in front of its bytes.
pub open spec fn behind(bytes: Seq<u8>, rest: Result<(Seq<u8>, int), Words>) -> Result<(Seq<u8>, int), Words> {
    match rest {
        Ok((more, end)) => Ok((bytes + more, end)),
        Err(words) => Err(words),
    }
}

/// The parameter sets of an avcC record. The sequence sets come first, five bits of their count in a
/// reserved byte, then the picture sets with a whole byte.
pub open spec fn record_sets(record: Seq<u8>) -> Result<Seq<u8>, Words> {
    if record.len() <= 5 {
        Err(field_cut())
    } else {
        match sets_in(record, 6, (record[5] & 0b1_1111) as int) {
            Err(words) => Err(words),
            Ok((sequence, end)) => if end >= record.len() {
                Err(field_cut())
            } else {
                match sets_in(record, end + 1, record[end] as int) {
                    Err(words) => Err(words),
                    Ok((picture, _)) => if sequence.len() + picture.len() == 0 {
                        Err("the avcC record holds no parameter set"@)
                    } else {
                        Ok(sequence + picture)
                    },
                }
            },
        }
    }
}

/// What a sample description says of its H.264 samples.
pub struct Avc {
    pub width: usize,
    pub height: usize,
    /// The parameter sets with Annex B start codes.
    pub parameter_sets: Vec<u8>,
    /// Bytes of the length that precedes every NAL unit of a sample.
    pub nal_length_size: usize,
}

/// The size, parameter sets and NAL length of the H.264 entry of a sample description.
pub open spec fn avc_in(description: Seq<u8>) -> Result<(nat, nat, Seq<u8>, int), Words> {
    if description.len() < 8 {
        Err(field_cut())
    } else {
        // A full box: version and flags, then the entry count.
        let entries = description.skip(8);
        let list = boxes(entries, 0);
        if exists|index: int| first_avc(entries, list, index) {
            let found = list[choose|index: int| first_avc(entries, list, index)];
            let entry = body(entries, found);
            match (number_at(entry, 24, 2), number_at(entry, 26, 2)) {
                (Ok(width), Ok(height)) => if entry.len() < 78 {
                    Err("a visual sample entry ends inside its fields"@)
                } else {
                    // A visual sample entry holds 78 bytes of fields, then its own boxes.
                    match child_of(entry.skip(78), Kind::AvcC) {
                        Err(_) => Err(
                            "the "@ + (if is_kind(entries, found, Kind::Avc1) {
                                Kind::Avc1
                            } else {
                                Kind::Avc3
                            }).letters() + " entry has no avcC record"@,
                        ),
                        Ok(record) => if record.len() <= 4 {
                            Err(field_cut())
                        } else {
                            match record_sets(record) {
                                Err(words) => Err(words),
                                Ok(sets) => Ok((width, height, sets, (record[4] & 0b11) + 1)),
                            }
                        },
                    }
                },
                _ => Err(field_cut()),
            }
        } else {
            Err("the video track is not H.264"@)
        }
    }
}

fn push_set(sets: &mut Vec<u8>, data: &[u8])
    ensures
        final(sets)@ == old(sets)@ + (start_code() + data@),
{
    sets.push(0);
    sets.push(0);
    sets.push(0);
    sets.push(1);
    sets.extend_from_slice(data);
    assert(sets@ =~= old(sets)@ + (start_code() + data@));
}

/// Appends the `count` parameter sets from `offset` on to `sets`, and says where they end.
fn push_sets(record: &[u8], offset: usize, count: usize, sets: &mut Vec<u8>) -> (result: Result<usize, Fault>)
    requires
        offset <= record@.len(),
    ensures
        match sets_in(record@, offset as int, count as int) {
            Ok((bytes, end)) => {
                &&& result matches Ok(reached)
                &&& reached == end
                &&& reached <= record@.len()
                &&& final(sets)@ == old(sets)@ + bytes
            },
            Err(words) => result matches Err(fault) && fault.says(FaultKind::InvalidData, words),
        },
{
    let size: usize = record.len();
    let mut reached: usize = offset;
    let ghost mut added: Seq<u8> = Seq::empty();
    proof {
        let all = sets_in(record@, offset as int, count as int);
        if all is Ok {
            assert(Seq::<u8>::empty() + all->Ok_0.0 =~= all->Ok_0.0);
        }
    }
    for set in 0..count
        invariant
            reached <= record@.len(),
            record@.len() == size,
            sets@ == old(sets)@ + added,
            sets_in(record@, offset as int, count as int) == behind(
                added,
                sets_in(record@, reached as int, count - set),
            ),
    {
        let length: usize = match u16_at(record, reached) {
            Ok(value) => value as usize,
            Err(fault) => {
                return Err(fault);
            },
        };
        let start: usize = reached + 2;
        if length > size - start {
            return Err(invalid("a parameter set runs past the avcC record"));
        }
        let data = slice_subrange(record, start, start + length);
        let ghost piece = start_code() + data@;
        push_set(sets, data);
        proof {
            let rest = sets_in(record@, start + length, count - set - 1);
            if rest is Ok {
                assert(added + (piece + rest->Ok_0.0) =~= (added + piece) + rest->Ok_0.0);
            }
            assert(sets@ =~= old(sets)@ + (added + piece));
            added = added + piece;
        }
        reached = start + length;
    }
    proof {
        assert(added + Seq::<u8>::empty() =~= added);
    }
    Ok(reached)
}

fn parameter_sets(record: &[u8]) -> (result: Result<Vec<u8>, Fault>)
    ensures
        agrees(result, record_sets(record@)),
{
    let size: usize = record.len();
    if size <= 5 {
        return Err(invalid("a box ends inside a field"));
    }
    let mut sets: Vec<u8> = Vec::new();
    let count: usize = (record[5] & 0b1_1111) as usize;
    let end: usize = push_sets(record, 6, count, &mut sets)?;
    if end >= size {
        return Err(invalid("a box ends inside a field"));
    }
    let ghost sequence = sets@;
    let count: usize = record[end] as usize;
    let _ = push_sets(record, end + 1, count, &mut sets)?;
    if sets.len() == 0 {
        return Err(invalid("the avcC record holds no parameter set"));
    }
    Ok(sets)
}

/// The size, parameter sets and NAL length of the H.264 entry of a sample description.
pub fn avc_configuration(description: &[u8]) -> (result: Result<Avc, Fault>)
    ensures
        match avc_in(description@) {
            Ok((width, height, sets, nal_length_size)) => {
                &&& result matches Ok(avc)
                &&& avc.width == width
                &&& avc.height == height
                &&& avc.parameter_sets@ == sets
                &&& avc.nal_length_size == nal_length_size
                &&& 1 <= avc.nal_length_size <= 4
            },
            Err(words) => result matches Err(fault) && fault.says(FaultKind::InvalidData, words),
        },
{
    if description.len() < 8 {
        return Err(invalid("a box ends inside a field"));
    }
    let entries = slice_subrange(description, 8, description.len());
    assert(entries@ =~= description@.skip(8));
    let list = children(entries);
    let length: usize = entries.len();
    proof {
        boxes_are_inside(entries@, 0);
    }
    let mut index: usize = 0;
    while index < list.len() && !spells(entries, list[index].kind, Kind::Avc1) && !spells(
        entries,
        list[index].kind,
        Kind::Avc3,
    )
        invariant
            index <= list@.len(),
            list@ == boxes(entries@, 0),
            forall|k: int|
                0 <= k < list@.len() ==> {
                    let found = #[trigger] boxes(entries@, 0)[k];
                    4 <= found.kind && found.kind + 4 <= found.start <= found.end <= entries@.len()
                },
            forall|before: int|
                0 <= before < index ==> !is_kind(entries@, #[trigger] list@[before], Kind::Avc1) && !is_kind(
                    entries@,
                    list@[before],
                    Kind::Avc3,
                ),
        decreases list@.len() - index,
    {
        index = index + 1;
    }
    if index >= list.len() {
        return Err(invalid("the video track is not H.264"));
    }
    let found = list[index];
    proof {
        assert(found == boxes(entries@, 0)[index as int]);
        assert(first_avc(entries@, list@, index as int));
        let chosen = choose|chosen: int| first_avc(entries@, list@, chosen);
        if chosen < index {
            assert(!is_kind(entries@, list@[chosen], Kind::Avc1));
        } else if index < chosen {
            assert(!is_kind(entries@, list@[index as int], Kind::Avc1));
        }
        assert(chosen == index);
    }
    let kind = if spells(entries, found.kind, Kind::Avc1) {
        Kind::Avc1
    } else {
        Kind::Avc3
    };
    let entry = slice_subrange(entries, found.start, found.end);
    let width: u16 = u16_at(entry, 24)?;
    let height: u16 = u16_at(entry, 26)?;
    if entry.len() < 78 {
        return Err(invalid("a visual sample entry ends inside its fields"));
    }
    let fields = slice_subrange(entry, 78, entry.len());
    assert(fields@ =~= entry@.skip(78));
    let record = match child(fields, Kind::AvcC) {
        Ok(record) => record,
        Err(_) => {
            let mut message = String::from_str("the ");
            message.append(kind.name());
            message.append(" entry has no avcC record");
            return Err(Fault { kind: FaultKind::InvalidData, message });
        },
    };
    if record.len() <= 4 {
        return Err(invalid("a box ends inside a field"));
    }
    let byte: u8 = record[4];
    let low: u8 = byte & 0b11;
    assert(byte & 0b11 <= 3) by (bit_vector);
    let sets = parameter_sets(record)?;
    Ok(
        Avc {
            width: width as usize,
            height: height as usize,
            parameter_sets: sets,
            nal_length_size: low as usize + 1,
        },
    )
}

/// The media of a track whose handler is `handler`, or nothing of a track of another.
pub open spec fn media_of(track: Seq<u8>, handler: Kind) -> Result<Option<Seq<u8>>, Words> {
    match child_of(track, Kind::Mdia) {
        Err(words) => Err(words),
        Ok(media) => match child_of(media, Kind::Hdlr) {
            Err(words) => Err(words),
            Ok(header) => match bytes_at(header, 8, 4) {
                Err(words) => Err(words),
                Ok(code) => if code == handler.code() {
                    Ok(Some(media))
                } else {
                    Ok(None)
                },
            },
        },
    }
}

/// The first track of a movie from the box number `from` on whose handler is `handler`, and its
/// media. A track before it that cannot be made sense of is an error.
pub open spec fn track_of(movie: Seq<u8>, list: Seq<BoxAt>, from: int, handler: Kind) -> Result<
    Option<(Seq<u8>, Seq<u8>)>,
    Words,
>
    decreases list.len() - from,
{
    if from < 0 || from >= list.len() {
        Ok(None)
    } else if !is_kind(movie, list[from], Kind::Trak) {
        track_of(movie, list, from + 1, handler)
    } else {
        match media_of(body(movie, list[from]), handler) {
            Err(words) => Err(words),
            Ok(None) => track_of(movie, list, from + 1, handler),
            Ok(Some(media)) => Ok(Some((body(movie, list[from]), media))),
        }
    }
}

/// The ticks per second of a movie or media header. The full box's version decides the width of its
/// times.
pub open spec fn timescale_in(header: Seq<u8>) -> Result<nat, Words> {
    if header.len() == 0 {
        Err(field_cut())
    } else if header[0] == 0 {
        number_at(header, 12, 4)
    } else {
        number_at(header, 20, 4)
    }
}

/// What a movie header says of its video track.
pub ghost struct Video {
    pub timescale: nat,
    pub width: nat,
    pub height: nat,
    pub parameter_sets: Seq<u8>,
    pub nal_length_size: int,
    pub samples: Seq<Sample>,
}

/// The video track of the media `media`.
pub open spec fn video_of(media: Seq<u8>) -> Result<Video, Words> {
    match child_of(media, Kind::Mdhd) {
        Err(words) => Err(words),
        Ok(header) => match timescale_in(header) {
            Err(words) => Err(words),
            Ok(timescale) => match child_of(media, Kind::Minf) {
                Err(words) => Err(words),
                Ok(information) => match child_of(information, Kind::Stbl) {
                    Err(words) => Err(words),
                    Ok(table) => match child_of(table, Kind::Stsd) {
                        Err(words) => Err(words),
                        Ok(description) => match avc_in(description) {
                            Err(words) => Err(words),
                            Ok((width, height, parameter_sets, nal_length_size)) => match samples_in(table) {
                                Err(words) => Err(words),
                                Ok(samples) => Ok(
                                    Video {
                                        timescale,
                                        width,
                                        height,
                                        parameter_sets,
                                        nal_length_size,
                                        samples,
                                    },
                                ),
                            },
                        },
                    },
                },
            },
        },
    }
}

/// The video track of a movie header.
pub open spec fn video_in(movie: Seq<u8>) -> Result<Video, Words> {
    match track_of(movie, boxes(movie, 0), 0, Kind::Vide) {
        Err(words) => Err(words),
        Ok(None) => Err("the file has no H.264 video track"@),
        Ok(Some((_, media))) => video_of(media),
    }
}

fn media<'a>(track: &'a [u8], handler: Kind) -> (result: Result<Option<&'a [u8]>, Fault>)
    ensures
        match media_of(track@, handler) {
            Err(words) => result matches Err(fault) && fault.says(FaultKind::InvalidData, words),
            Ok(None) => result matches Ok(None),
            Ok(Some(inner)) => result matches Ok(Some(found)) && found@ == inner,
        },
{
    let media = child(track, Kind::Mdia)?;
    let header = child(media, Kind::Hdlr)?;
    if header.len() < 12 {
        return Err(invalid("a box ends inside a field"));
    }
    if spells(header, 8, handler) {
        Ok(Some(media))
    } else {
        Ok(None)
    }
}

fn track<'a>(movie: &'a [u8], handler: Kind) -> (result: Result<Option<(&'a [u8], &'a [u8])>, Fault>)
    ensures
        match track_of(movie@, boxes(movie@, 0), 0, handler) {
            Err(words) => result matches Err(fault) && fault.says(FaultKind::InvalidData, words),
            Ok(None) => result matches Ok(None),
            Ok(Some((track, media))) => result matches Ok(Some((found, inner))) && found@ == track && inner@ == media,
        },
{
    let list = children(movie);
    let length: usize = movie.len();
    proof {
        boxes_are_inside(movie@, 0);
    }
    let count: usize = list.len();
    for index in 0..count
        invariant
            count == list@.len(),
            list@ == boxes(movie@, 0),
            forall|k: int|
                0 <= k < list@.len() ==> {
                    let found = #[trigger] boxes(movie@, 0)[k];
                    4 <= found.kind && found.kind + 4 <= found.start <= found.end <= movie@.len()
                },
            track_of(movie@, list@, 0, handler) == track_of(movie@, list@, index as int, handler),
    {
        let found = list[index];
        assert(found == boxes(movie@, 0)[index as int]);
        if spells(movie, found.kind, Kind::Trak) {
            let inner = slice_subrange(movie, found.start, found.end);
            if let Some(media) = media(inner, handler)? {
                return Ok(Some((inner, media)));
            }
        }
    }
    Ok(None)
}

fn timescale(header: &[u8]) -> (result: Result<u32, Fault>)
    ensures
        match timescale_in(header@) {
            Ok(value) => result matches Ok(number) && number == value,
            Err(words) => result matches Err(fault) && fault.says(FaultKind::InvalidData, words),
        },
{
    if header.len() == 0 {
        return Err(invalid("a box ends inside a field"));
    }
    if header[0] == 0 {
        u32_at(header, 12)
    } else {
        u32_at(header, 20)
    }
}

/// The video track of a movie header, with the bytes of its NAL lengths.
pub fn video_track(movie: &[u8]) -> (result: Result<(VideoTrack, usize), Fault>)
    ensures
        match video_in(movie@) {
            Err(words) => result matches Err(fault) && fault.says(FaultKind::InvalidData, words),
            Ok(video) => {
                &&& result matches Ok((track, nal_length_size))
                &&& track.timescale == video.timescale
                &&& track.width == video.width
                &&& track.height == video.height
                &&& track.parameter_sets@ == video.parameter_sets
                &&& track.samples@ == video.samples
                &&& nal_length_size == video.nal_length_size
                &&& 1 <= nal_length_size <= 4
            },
        },
{
    match track(movie, Kind::Vide)? {
        None => Err(invalid("the file has no H.264 video track")),
        Some((_, media)) => {
            let header = child(media, Kind::Mdhd)?;
            let timescale: u32 = timescale(header)?;
            let information = child(media, Kind::Minf)?;
            let table = child(information, Kind::Stbl)?;
            let description = child(table, Kind::Stsd)?;
            let avc = avc_configuration(description)?;
            let samples = samples(table)?;
            Ok(
                (
                    VideoTrack {
                        width: avc.width,
                        height: avc.height,
                        timescale,
                        parameter_sets: avc.parameter_sets,
                        samples,
                    },
                    avc.nal_length_size,
                ),
            )
        },
    }
}

/// The first entry of an edit list says where the media starts and how long it plays, the duration in
/// the movie's timescale and the start in the media's own.
pub open spec fn first_edit(list: Seq<u8>) -> Result<(nat, int), Words> {
    if list[0] == 0 {
        match (number_at(list, 8, 4), number_at(list, 12, 4)) {
            (Ok(duration), Ok(start)) => Ok((duration, as_signed(start as int, 0x8000_0000))),
            _ => Err(field_cut()),
        }
    } else {
        match (number_at(list, 8, 8), number_at(list, 16, 8)) {
            (Ok(duration), Ok(start)) => Ok((duration, as_signed(start as int, 0x8000_0000_0000_0000))),
            _ => Err(field_cut()),
        }
    }
}

/// The number whose two's complement `value` is, the least of which is `-half`.
pub open spec fn as_signed(value: int, half: int) -> int {
    if value < half {
        value
    } else {
        value - 2 * half
    }
}

/// What a player keeps of the audio track of a movie header: the samples it skips at the start, which
/// hide the codec's priming, and the samples it plays, both counted in the track's own sample rate.
/// The edit list carries them, and a file without one keeps everything.
pub open spec fn trim_in(movie: Seq<u8>) -> Result<Option<(nat, nat)>, Words> {
    match child_of(movie, Kind::Mvhd) {
        Err(words) => Err(words),
        Ok(header) => match timescale_in(header) {
            Err(words) => Err(words),
            Ok(movie_timescale) => match track_of(movie, boxes(movie, 0), 0, Kind::Soun) {
                Err(words) => Err(words),
                Ok(None) => Ok(None),
                Ok(Some((track, media))) => match child_of(track, Kind::Edts) {
                    Err(_) => Ok(None),
                    Ok(edits) => match child_of(edits, Kind::Elst) {
                        Err(_) => Ok(None),
                        Ok(list) => trim_of(media, list, movie_timescale),
                    },
                },
            },
        },
    }
}

/// What the edit list `list` keeps of the audio track with the media `media`.
pub open spec fn trim_of(media: Seq<u8>, list: Seq<u8>, movie_timescale: nat) -> Result<Option<(nat, nat)>, Words> {
    match child_of(media, Kind::Mdhd) {
        Err(words) => Err(words),
        Ok(header) => match timescale_in(header) {
            Err(words) => Err(words),
            Ok(media_timescale) => if movie_timescale == 0 || media_timescale == 0 {
                Ok(None)
            } else {
                match number_at(list, 4, 4) {
                    Err(words) => Err(words),
                    Ok(entries) => if entries == 0 {
                        Ok(None)
                    } else {
                        match first_edit(list) {
                            Err(words) => Err(words),
                            Ok((duration, start)) => {
                                let length = duration * media_timescale / movie_timescale;
                                if length > u64::MAX {
                                    Err("an edit plays longer than a count of samples can say"@)
                                } else {
                                    Ok(Some((arithmetic::max(start, 0) as nat, length)))
                                }
                            },
                        }
                    },
                }
            },
        },
    }
}

/// What a player keeps of the audio track of a movie header: the samples it skips at the start, which
/// hide the codec's priming, and the samples it plays, both counted in the track's own sample rate.
/// The edit list carries them, and a file without one keeps everything.
pub fn audio_trim(movie: &[u8]) -> (result: Result<Option<(u64, u64)>, Fault>)
    ensures
        match trim_in(movie@) {
            Err(words) => result matches Err(fault) && fault.says(FaultKind::InvalidData, words),
            Ok(None) => result matches Ok(None),
            Ok(Some((skip, length))) => result matches Ok(Some((skipped, played))) && skipped == skip && played == length,
        },
{
    let movie_header = child(movie, Kind::Mvhd)?;
    let movie_timescale: u32 = timescale(movie_header)?;
    let (inner, media) = match track(movie, Kind::Soun)? {
        None => {
            return Ok(None);
        },
        Some(pair) => pair,
    };
    let list = match child(inner, Kind::Edts) {
        Err(_) => {
            return Ok(None);
        },
        Ok(edits) => match child(edits, Kind::Elst) {
            Err(_) => {
                return Ok(None);
            },
            Ok(list) => list,
        },
    };
    let header = child(media, Kind::Mdhd)?;
    let media_timescale: u32 = timescale(header)?;
    if movie_timescale == 0 || media_timescale == 0 || u32_at(list, 4)? == 0 {
        return Ok(None);
    }
    let (duration, skip): (u64, u64) = if list[0] == 0 {
        let duration: u32 = u32_at(list, 8)?;
        let start: u32 = u32_at(list, 12)?;
        (
            duration as u64,
            if start < 0x8000_0000 {
                start as u64
            } else {
                0
            },
        )
    } else {
        let duration: u64 = u64_at(list, 8)?;
        let start: u64 = u64_at(list, 16)?;
        (
            duration,
            if start < 0x8000_0000_0000_0000 {
                start
            } else {
                0
            },
        )
    };
    proof {
        assert(duration * media_timescale <= 0xffff_ffff_ffff_ffff * 0xffff_ffff) by (nonlinear_arith)
            requires
                duration <= 0xffff_ffff_ffff_ffff,
                media_timescale <= 0xffff_ffff,
        ;
    }
    let length: u128 = duration as u128 * media_timescale as u128 / movie_timescale as u128;
    if length > u64::MAX as u128 {
        return Err(invalid("an edit plays longer than a count of samples can say"));
    }
    Ok(Some((skip, length as u64)))
}

/// The NAL units of a sample from `offset` on, each behind its length of `width` bytes.
pub open spec fn nals_from(data: Seq<u8>, width: int, offset: int) -> Result<Seq<Seq<u8>>, Words>
    decreases data.len() - offset,
{
    if width <= 0 || offset < 0 || offset + width > data.len() {
        Ok(Seq::empty())
    } else {
        let length = big_endian(data.subrange(offset, offset + width));
        let start = offset + width;
        if length == 0 || start + length > data.len() {
            Err("a NAL unit runs past its sample"@)
        } else {
            match nals_from(data, width, start + length) {
                Err(words) => Err(words),
                Ok(rest) => Ok(seq![data.subrange(start, start + length)] + rest),
            }
        }
    }
}

/// `nals` as Annex B: each behind a start code.
pub open spec fn annex_b(nals: Seq<Seq<u8>>) -> Seq<u8>
    decreases nals.len(),
{
    if nals.len() == 0 {
        Seq::empty()
    } else {
        start_code() + nals[0] + annex_b(nals.drop_first())
    }
}

/// The access unit of a sample in Annex B form, its NAL units prefixed with start codes instead of
/// lengths.
pub open spec fn unit_of(data: Seq<u8>, width: int) -> Result<Seq<u8>, Words> {
    match nals_from(data, width, 0) {
        Err(words) => Err(words),
        Ok(nals) => if nals.len() == 0 {
            Err("a sample holds no NAL unit"@)
        } else {
            Ok(annex_b(nals))
        },
    }
}

/// Whether `result` is what is left of `all` behind the NAL units `done`.
spec fn resumes(
    all: Result<Seq<Seq<u8>>, Words>,
    done: Seq<Seq<u8>>,
    rest: Result<Seq<Seq<u8>>, Words>,
) -> bool {
    match rest {
        Err(words) => all == Err::<Seq<Seq<u8>>, Words>(words),
        Ok(more) => all == Ok::<Seq<Seq<u8>>, Words>(done + more),
    }
}

proof fn annex_b_appends(nals: Seq<Seq<u8>>, nal: Seq<u8>)
    ensures
        annex_b(nals.push(nal)) == annex_b(nals) + (start_code() + nal),
        (annex_b(nals).len() == 0) == (nals.len() == 0),
    decreases nals.len(),
{
    if nals.len() == 0 {
        let one = nals.push(nal);
        assert(one[0] == nal);
        assert(one.drop_first() =~= nals);
        assert(annex_b(one.drop_first()) == Seq::<u8>::empty());
        assert(annex_b(one) == start_code() + nal + annex_b(one.drop_first()));
        assert(start_code() + nal + Seq::<u8>::empty() =~= start_code() + nal);
        assert(annex_b(nals) + (start_code() + nal) =~= start_code() + nal);
    } else {
        annex_b_appends(nals.drop_first(), nal);
        assert(nals.push(nal).drop_first() =~= nals.drop_first().push(nal));
        assert(annex_b(nals.push(nal)) =~= annex_b(nals) + (start_code() + nal));
    }
}

/// The length in the `width` bytes at `offset`.
fn nal_length(data: &[u8], width: usize, offset: usize) -> (length: usize)
    requires
        1 <= width <= 4,
        offset + width <= data@.len(),
    ensures
        length == big_endian(data@.subrange(offset as int, offset + width)),
{
    let size: usize = data.len();
    let mut length: usize = 0;
    let ghost field = data@.subrange(offset as int, offset + width);
    assert(field.take(0) =~= Seq::empty());
    proof {
        reveal_with_fuel(big_endian, 2);
    }
    let mut place: usize = 0;
    while place < width
        invariant
            1 <= width <= 4,
            place <= width,
            offset + width <= data@.len(),
            data@.len() == size,
            field == data@.subrange(offset as int, offset + width),
            length == big_endian(field.take(place as int)),
            place == 0 ==> length == 0,
            place == 1 ==> length <= 0xff,
            place == 2 ==> length <= 0xffff,
            place == 3 ==> length <= 0xff_ffff,
        decreases width - place,
    {
        proof {
            assert(field.take(place + 1).drop_last() =~= field.take(place as int));
            assert(field.take(place + 1).last() == data@[offset + place]);
        }
        length = length * 256 + data[offset + place] as usize;
        place = place + 1;
    }
    assert(field.take(width as int) =~= field);
    length
}

/// The access unit of a sample in Annex B form, its NAL units prefixed with start codes instead of
/// lengths of `nal_length_size` bytes.
pub fn access_unit(data: &[u8], nal_length_size: usize) -> (unit: Result<Vec<u8>, Fault>)
    requires
        1 <= nal_length_size <= 4,
    ensures
        agrees(unit, unit_of(data@, nal_length_size as int)),
{
    let size: usize = data.len();
    let mut unit: Vec<u8> = Vec::new();
    let mut offset: usize = 0;
    let ghost all = nals_from(data@, nal_length_size as int, 0);
    let ghost mut done: Seq<Seq<u8>> = Seq::empty();
    proof {
        if all is Ok {
            assert(done + all->Ok_0 =~= all->Ok_0);
        }
    }
    while nal_length_size <= size - offset
        invariant
            1 <= nal_length_size <= 4,
            size == data@.len(),
            offset <= size,
            all == nals_from(data@, nal_length_size as int, 0),
            resumes(all, done, nals_from(data@, nal_length_size as int, offset as int)),
            unit@ == annex_b(done),
        decreases size - offset,
    {
        let ghost rest = nals_from(data@, nal_length_size as int, offset as int);
        let length: usize = nal_length(data, nal_length_size, offset);
        let start: usize = offset + nal_length_size;
        if length == 0 || length > size - start {
            return Err(invalid("a NAL unit runs past its sample"));
        }
        let nal = slice_subrange(data, start, start + length);
        push_set(&mut unit, nal);
        proof {
            annex_b_appends(done, nal@);
            let more = nals_from(data@, nal_length_size as int, start + length);
            if more is Ok {
                assert(done + (seq![nal@] + more->Ok_0) =~= done.push(nal@) + more->Ok_0);
            }
            done = done.push(nal@);
        }
        offset = start + length;
    }
    proof {
        annex_b_appends(done, Seq::empty());
        assert(done + Seq::<Seq<u8>>::empty() =~= done);
    }
    if unit.len() == 0 {
        return Err(invalid("a sample holds no NAL unit"));
    }
    Ok(unit)
}

/// `nals` as they stand in a sample, each behind its length as one of `headers`.
pub open spec fn length_prefixed(headers: Seq<Seq<u8>>, nals: Seq<Seq<u8>>) -> Seq<u8>
    decreases nals.len(),
{
    if nals.len() == 0 || headers.len() == 0 {
        Seq::empty()
    } else {
        headers[0] + nals[0] + length_prefixed(headers.drop_first(), nals.drop_first())
    }
}

/// Whether each of `headers` is `width` bytes that spell the length of its NAL unit.
pub open spec fn lengths_of(headers: Seq<Seq<u8>>, nals: Seq<Seq<u8>>, width: int) -> bool {
    &&& headers.len() == nals.len()
    &&& forall|k: int|
        0 <= k < nals.len() ==> (#[trigger] headers[k]).len() == width && big_endian(headers[k]) == nals[k].len()
}

/// Whether `nals` behind the lengths `headers` are the sample `data` from `offset` on, save a tail too
/// short for a length.
pub open spec fn restores(
    headers: Seq<Seq<u8>>,
    nals: Seq<Seq<u8>>,
    data: Seq<u8>,
    width: int,
    offset: int,
) -> bool {
    let kept = length_prefixed(headers, nals);
    &&& lengths_of(headers, nals, width)
    &&& offset + kept.len() <= data.len() < offset + kept.len() + width
    &&& kept == data.subrange(offset, offset + kept.len())
}

/// Nothing of a sample is lost or added but its lengths: the NAL units of its access unit, each behind
/// its length again, are the sample itself, save a tail too short for a length.
pub proof fn an_access_unit_keeps_the_sample(data: Seq<u8>, width: int, offset: int)
    requires
        width > 0,
        0 <= offset <= data.len(),
        nals_from(data, width, offset) is Ok,
    ensures
        exists|headers: Seq<Seq<u8>>|
            #[trigger] restores(headers, nals_from(data, width, offset)->Ok_0, data, width, offset),
    decreases data.len() - offset,
{
    let nals = nals_from(data, width, offset)->Ok_0;
    if offset + width > data.len() {
        let headers = Seq::<Seq<u8>>::empty();
        assert(length_prefixed(headers, nals) =~= data.subrange(offset, offset));
        assert(lengths_of(headers, nals, width));
        assert(restores(headers, nals, data, width, offset));
    } else {
        let header = data.subrange(offset, offset + width);
        let length = big_endian(header);
        let start = offset + width;
        let end = start + length;
        let rest = nals_from(data, width, end)->Ok_0;
        an_access_unit_keeps_the_sample(data, width, end);
        let later = choose|headers: Seq<Seq<u8>>| #[trigger] restores(headers, rest, data, width, end);
        let headers = seq![header] + later;
        assert(nals.drop_first() =~= rest);
        assert(headers.drop_first() =~= later);
        let kept = length_prefixed(headers, nals);
        assert(kept == header + nals[0] + length_prefixed(later, rest));
        assert(kept =~= data.subrange(offset, offset + kept.len()));
        assert(lengths_of(headers, nals, width)) by {
            assert forall|k: int| 0 <= k < nals.len() implies (#[trigger] headers[k]).len() == width && big_endian(
                headers[k],
            ) == nals[k].len() by {
                if k > 0 {
                    assert(headers[k] == later[k - 1]);
                    assert(nals[k] == rest[k - 1]);
                }
            }
        }
        assert(restores(headers, nals, data, width, offset));
    }
}

/// What to read of a file to find a box at its top level.
#[derive(Clone, Copy, Debug, PartialEq, Eq, Structural)]
pub enum Wanted {
    /// The eight bytes of a box's header, here.
    Header(u64),
    /// The eight bytes of the large size behind a box's header, here.
    LargeSize(u64),
    /// The payload of the box: from the first offset on, this many bytes.
    Payload(u64, usize),
}

/// A walk over the boxes at the top level of a file of `end` bytes.
pub struct TopLevel {
    /// What is looked for.
    pub kind: Kind,
    /// The size of the file.
    pub end: u64,
    /// Where the box at hand starts.
    pub offset: u64,
    /// Whether the header of the box at hand was read and a large size follows, and whether it is of
    /// the kind that is looked for.
    pub large: Option<bool>,
}

/// What comes of a read at the top level.
pub enum Walked {
    /// The walk goes on.
    On,
    /// The box was found: its payload is to be read.
    Found(Wanted),
}

impl TopLevel {
    /// Starts at the head of a file of `end` bytes.
    pub fn new(kind: Kind, end: u64) -> (walk: TopLevel)
        ensures
            walk == (TopLevel { kind, end, offset: 0, large: None }),
    {
        TopLevel { kind, end, offset: 0, large: None }
    }

    /// Whether the file holds another header.
    pub open spec fn more(self) -> bool {
        self.offset + 8 <= self.end
    }

    /// What to read next, or that the file has no box of the kind.
    pub fn next(&self) -> (wanted: Result<Wanted, Fault>)
        requires
            self.large is Some ==> self.more(),
        ensures
            match self.large {
                Some(_) => wanted == Ok::<Wanted, Fault>(Wanted::LargeSize((self.offset + 8) as u64)),
                None => if self.more() {
                    wanted == Ok::<Wanted, Fault>(Wanted::Header(self.offset))
                } else {
                    wanted matches Err(fault) && fault.says(FaultKind::InvalidData, no_box(self.kind))
                },
            },
    {
        if self.large.is_some() {
            return Ok(Wanted::LargeSize(self.offset + 8));
        }
        if self.end >= 8 && self.offset <= self.end - 8 {
            Ok(Wanted::Header(self.offset))
        } else {
            let mut message = String::from_str("no ");
            message.append(self.kind.name());
            message.append(" box");
            Err(Fault { kind: FaultKind::InvalidData, message })
        }
    }

    /// What a box of `size` bytes in all, `header` of them its header, comes to.
    pub open spec fn comes_to(self, header: int, size: int, found: bool, result: Result<Walked, Fault>, after: TopLevel) -> bool {
        if size < header {
            result matches Err(fault) && fault.says(FaultKind::InvalidData, "a box is shorter than its header"@)
        } else if found && size - header > usize::MAX {
            result matches Err(fault) && fault.says(
                FaultKind::InvalidData,
                "a box is too large for this machine: out of range integral type conversion attempted"@,
            )
        } else if found && self.offset + header > u64::MAX {
            result matches Err(fault) && fault.says(FaultKind::InvalidData, no_box(self.kind))
        } else if found {
            result matches Ok(Walked::Found(Wanted::Payload(position, length))) && position == self.offset + header
                && length == size - header
        } else {
            &&& result matches Ok(Walked::On)
            &&& after == (TopLevel {
                offset: arithmetic::min(self.offset + size, u64::MAX as int) as u64,
                large: None,
                ..self
            })
        }
    }

    fn sized(&mut self, header: u64, size: u64, found: bool) -> (result: Result<Walked, Fault>)
        ensures
            old(self).comes_to(header as int, size as int, found, result, *final(self)),
    {
        if size < header {
            return Err(invalid("a box is shorter than its header"));
        }
        let length: u64 = size - header;
        if found {
            if length > usize::MAX as u64 {
                return Err(
                    invalid("a box is too large for this machine: out of range integral type conversion attempted"),
                );
            }
            if header > u64::MAX - self.offset {
                let mut message = String::from_str("no ");
                message.append(self.kind.name());
                message.append(" box");
                return Err(Fault { kind: FaultKind::InvalidData, message });
            }
            return Ok(Walked::Found(Wanted::Payload(self.offset + header, length as usize)));
        }
        self.offset = self.offset.saturating_add(size);
        self.large = None;
        Ok(Walked::On)
    }

    /// What the eight bytes of a header come to.
    pub open spec fn takes_header(self, bytes: Seq<u8>, result: Result<Walked, Fault>, after: TopLevel) -> bool {
        let size = big_endian(bytes.take(4));
        let found = bytes.skip(4) == self.kind.code();
        if size == 1 {
            &&& result matches Ok(Walked::On)
            &&& after == (TopLevel { large: Some(found), ..self })
        } else {
            self.comes_to(
                8,
                if size == 0 {
                    self.end - self.offset
                } else {
                    size as int
                },
                found,
                result,
                after,
            )
        }
    }

    /// What the eight bytes of a large size come to.
    pub open spec fn takes_large_size(self, bytes: Seq<u8>, result: Result<Walked, Fault>, after: TopLevel) -> bool {
        self.comes_to(16, big_endian(bytes) as int, self.large->0, result, after)
    }

    /// Takes the eight bytes of a header.
    pub fn header(&mut self, bytes: &[u8]) -> (result: Result<Walked, Fault>)
        requires
            bytes@.len() == 8,
            old(self).large is None,
            old(self).more(),
        ensures
            old(self).takes_header(bytes@, result, *final(self)),
    {
        assert(bytes@.subrange(0, 4) =~= bytes@.take(4));
        assert(bytes@.subrange(4, 8) =~= bytes@.skip(4));
        let size: u32 = u32_at(bytes, 0)?;
        let found = spells(bytes, 4, self.kind);
        if size == 1 {
            self.large = Some(found);
            return Ok(Walked::On);
        }
        let whole: u64 = if size == 0 {
            self.end - self.offset
        } else {
            size as u64
        };
        self.sized(8, whole, found)
    }

    /// Takes the eight bytes of a large size.
    pub fn large_size(&mut self, bytes: &[u8]) -> (result: Result<Walked, Fault>)
        requires
            bytes@.len() == 8,
            old(self).large is Some,
        ensures
            old(self).takes_large_size(bytes@, result, *final(self)),
    {
        assert(bytes@.subrange(0, 8) =~= bytes@);
        let size: u64 = u64_at(bytes, 0)?;
        let found = match self.large {
            Some(found) => found,
            None => false,
        };
        self.sized(16, size, found)
    }
}

/// The ticks of all the samples, and their count.
pub open spec fn ticks(samples: Seq<Sample>) -> nat
    decreases samples.len(),
{
    if samples.len() == 0 {
        0
    } else {
        ticks(samples.drop_last()) + samples.last().duration as nat
    }
}

impl VideoTrack {
    /// The frames and the ticks they last, whose quotient times the timescale are the frames per
    /// second from the mean sample duration, unless there are no frames or they last no time.
    pub fn pace(&self) -> (pace: Option<(usize, u64)>)
        requires
            self.samples@.len() <= u32::MAX,
        ensures
            pace == (if ticks(self.samples@) == 0 {
                None
            } else {
                Some((self.samples@.len() as usize, ticks(self.samples@) as u64))
            }),
            pace matches Some((frames, total)) ==> frames > 0 && total == ticks(self.samples@),
    {
        let count: usize = self.samples.len();
        let mut total: u64 = 0;
        for index in 0..count
            invariant
                count == self.samples@.len(),
                total == ticks(self.samples@.take(index as int)),
                total <= index * 0xffff_ffff,
                count <= u32::MAX,
        {
            proof {
                let more = self.samples@.take(index + 1);
                assert(more.drop_last() =~= self.samples@.take(index as int));
            }
            total = total + self.samples[index].duration as u64;
        }
        assert(self.samples@.take(count as int) =~= self.samples@);
        if total == 0 {
            None
        } else {
            Some((count, total))
        }
    }
}

/// A file whose movie header was read, ready for its video track's samples.
pub struct Mp4File {
    track: VideoTrack,
    /// Bytes of the length that precedes every NAL unit of a sample.
    nal_length_size: usize,
}

impl Mp4File {
    /// The NAL lengths are of one to four bytes.
    pub closed spec fn valid(self) -> bool {
        1 <= self.nal_length_size <= 4
    }

    pub closed spec fn video(self) -> VideoTrack {
        self.track
    }

    pub closed spec fn nal_length_size(self) -> int {
        self.nal_length_size as int
    }

    /// The video track of a movie header.
    pub fn new(movie: &[u8]) -> (file: Result<Mp4File, Fault>)
        ensures
            match video_in(movie@) {
                Err(words) => file matches Err(fault) && fault.says(FaultKind::InvalidData, words),
                Ok(video) => {
                    &&& file matches Ok(file)
                    &&& file.valid()
                    &&& file.video().timescale == video.timescale
                    &&& file.video().width == video.width
                    &&& file.video().height == video.height
                    &&& file.video().parameter_sets@ == video.parameter_sets
                    &&& file.video().samples@ == video.samples
                    &&& file.nal_length_size() == video.nal_length_size
                },
            },
    {
        let (track, nal_length_size) = video_track(movie)?;
        Ok(Mp4File { track, nal_length_size })
    }

    pub fn track(&self) -> (track: &VideoTrack)
        ensures
            *track == self.video(),
    {
        &self.track
    }

    /// Where sample `index` is in the file.
    pub fn sample(&self, index: usize) -> (sample: Result<Sample, Fault>)
        ensures
            if index < self.video().samples@.len() {
                sample == Ok::<Sample, Fault>(self.video().samples@[index as int])
            } else {
                sample matches Err(fault) && fault.says(
                    FaultKind::InvalidData,
                    "no sample "@ + text::decimal(index as nat),
                )
            },
    {
        if index < self.track.samples.len() {
            Ok(self.track.samples[index])
        } else {
            let mut message = String::from_str("no sample ");
            text::push_size(&mut message, index);
            Err(Fault { kind: FaultKind::InvalidData, message })
        }
    }

    /// The access unit of a sample whose bytes are `data`, in Annex B form.
    pub fn access_unit(&self, data: &[u8]) -> (unit: Result<Vec<u8>, Fault>)
        requires
            self.valid(),
        ensures
            agrees(unit, unit_of(data@, self.nal_length_size())),
    {
        access_unit(data, self.nal_length_size)
    }
}

} // verus!
