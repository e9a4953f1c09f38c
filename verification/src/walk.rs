//! What a walk over the boxes at the top level of a file comes to, over the bytes of the file.
use crate::arithmetic;
use crate::fault::{Fault, FaultKind};
use crate::mp4;
use crate::mp4::{Kind, TopLevel, Walked, Wanted};
use vstd::prelude::*;

verus! {

/// What a file holds of a kind of box.
pub ghost enum Holds {
    /// The payload of the first box of the kind: where it starts, and its bytes.
    Payload { position: int, length: int },
    /// It makes no sense as a file of boxes, or has no box of the kind.
    Refused(Seq<char>),
    /// It ends inside the large size of a box.
    Cut,
}

/// The bytes of the header of the box at `offset`.
pub open spec fn header_size(file: Seq<u8>, offset: int) -> int {
    if mp4::big_endian(file.subrange(offset, offset + 4)) == 1 {
        16
    } else {
        8
    }
}

/// The bytes of the box at `offset` with its header: a box of size 0 goes to the end of the file, and one of size 1 has its
/// size behind its kind.
pub open spec fn box_size(file: Seq<u8>, offset: int) -> int {
    let size = mp4::big_endian(file.subrange(offset, offset + 4));
    if size == 0 {
        file.len() - offset
    } else if size == 1 {
        mp4::big_endian(file.subrange(offset + 8, offset + 16)) as int
    } else {
        size as int
    }
}

/// What a file holds of a kind from `offset` on, where boxes follow one another.
pub open spec fn holds_from(file: Seq<u8>, kind: Kind, offset: int) -> Holds
    decreases arithmetic::max(file.len() - offset, 0),
{
    if offset < 0 || offset + 8 > file.len() {
        Holds::Refused(mp4::no_box(kind))
    } else {
        let header = header_size(file, offset);
        let size = box_size(file, offset);
        if offset + header > file.len() {
            Holds::Cut
        } else if size < header {
            Holds::Refused("a box is shorter than its header"@)
        } else if file.subrange(offset + 4, offset + 8) != kind.code() {
            holds_from(file, kind, offset + size)
        } else if size - header > usize::MAX {
            Holds::Refused(
                "a box is too large for this machine: out of range integral type conversion attempted"@,
            )
        } else {
            Holds::Payload { position: offset + header, length: size - header }
        }
    }
}

/// Whether a walk that is handed what it wants of a file comes to `result` and `after`.
pub open spec fn takes(file: Seq<u8>, walk: TopLevel, result: Result<Walked, Fault>, after: TopLevel) -> bool {
    match walk.large {
        None => walk.more() && walk.takes_header(
            file.subrange(walk.offset as int, walk.offset + 8),
            result,
            after,
        ),
        Some(_) => walk.offset + 16 <= file.len() && walk.takes_large_size(
            file.subrange(walk.offset + 8, walk.offset + 16),
            result,
            after,
        ),
    }
}

/// Whether a walk is over the file, and knows of the box at hand what its header says.
spec fn is_on(file: Seq<u8>, kind: Kind, walk: TopLevel) -> bool {
    &&& walk.kind == kind
    &&& walk.end == file.len()
    &&& walk.large matches Some(found) ==> {
        &&& walk.more()
        &&& header_size(file, walk.offset as int) == 16
        &&& found == (file.subrange(walk.offset + 4, walk.offset + 8) == kind.code())
    }
}

/// Whether `walks` are the states of a walk that goes on over a file from its head.
pub open spec fn goes_on(file: Seq<u8>, kind: Kind, walks: Seq<TopLevel>) -> bool {
    &&& walks.len() > 0
    &&& walks[0] == (TopLevel { kind, end: file.len() as u64, offset: 0, large: None })
    &&& forall|i: int|
        0 <= i < walks.len() - 1 ==> (exists|result: Result<Walked, Fault>|
            result is Ok && result->Ok_0 is On && #[trigger] takes(file, #[trigger] walks[i], result, walks[i + 1]))
}

proof fn a_step_stays_on(file: Seq<u8>, kind: Kind, walk: TopLevel, result: Result<Walked, Fault>, after: TopLevel)
    requires
        file.len() <= u64::MAX,
        is_on(file, kind, walk),
        takes(file, walk, result, after),
    ensures
        match result {
            Ok(Walked::On) => {
                &&& is_on(file, kind, after)
                &&& holds_from(file, kind, after.offset as int) == holds_from(file, kind, walk.offset as int)
                &&& if after.large is Some {
                    after.offset == walk.offset && walk.large is None
                } else {
                    after.offset >= walk.offset + 8
                }
            },
            Ok(Walked::Found(Wanted::Payload(position, length))) => holds_from(file, kind, walk.offset as int) == (
            Holds::Payload { position: position as int, length: length as int }),
            Ok(Walked::Found(_)) => false,
            Err(fault) => holds_from(file, kind, walk.offset as int) matches Holds::Refused(words) && fault.says(
                FaultKind::InvalidData,
                words,
            ),
        },
{
    let offset = walk.offset as int;
    let bytes = file.subrange(offset, offset + 8);
    assert(bytes.take(4) =~= file.subrange(offset, offset + 4));
    assert(bytes.skip(4) =~= file.subrange(offset + 4, offset + 8));
    let size = box_size(file, offset);
    let header = header_size(file, offset);
    if offset + header <= file.len() && size >= header {
        let next = arithmetic::min(offset + size, u64::MAX as int);
        assert(holds_from(file, kind, next) == holds_from(file, kind, offset + size));
    }
}

proof fn a_walk_stays_on(file: Seq<u8>, kind: Kind, walks: Seq<TopLevel>, place: int)
    requires
        file.len() <= u64::MAX,
        goes_on(file, kind, walks),
        0 <= place < walks.len(),
    ensures
        is_on(file, kind, walks[place]),
        holds_from(file, kind, walks[place].offset as int) == holds_from(file, kind, 0),
        4 * place <= walks[place].offset + (if walks[place].large is Some {
            4int
        } else {
            0int
        }),
    decreases place,
{
    if place > 0 {
        a_walk_stays_on(file, kind, walks, place - 1);
        let before = walks[place - 1];
        let result = choose|result: Result<Walked, Fault>|
            result is Ok && result->Ok_0 is On && #[trigger] takes(file, before, result, walks[place - 1 + 1]);
        a_step_stays_on(file, kind, before, result, walks[place]);
    }
}

/// A walk that goes on passes a box within every two reads, so it comes to the end of its file.
pub proof fn a_walk_ends(file: Seq<u8>, kind: Kind, walks: Seq<TopLevel>)
    requires
        file.len() <= u64::MAX,
        goes_on(file, kind, walks),
        walks.last().more(),
    ensures
        4 * (walks.len() - 1) <= file.len(),
{
    a_walk_stays_on(file, kind, walks, walks.len() - 1);
}

/// A walk over the bytes of a file comes to the payload of the first box of the kind, or is refused with the words the
/// file is refused with.
pub proof fn a_walk_finds_the_first_box(
    file: Seq<u8>,
    kind: Kind,
    walks: Seq<TopLevel>,
    result: Result<Walked, Fault>,
    after: TopLevel,
)
    requires
        file.len() <= u64::MAX,
        goes_on(file, kind, walks),
        takes(file, walks.last(), result, after),
    ensures
        match result {
            Ok(Walked::On) => goes_on(file, kind, walks.push(after)),
            Ok(Walked::Found(Wanted::Payload(position, length))) => holds_from(file, kind, 0) == (Holds::Payload {
                position: position as int,
                length: length as int,
            }),
            Ok(Walked::Found(_)) => false,
            Err(fault) => holds_from(file, kind, 0) matches Holds::Refused(words) && fault.says(
                FaultKind::InvalidData,
                words,
            ),
        },
{
    a_walk_stays_on(file, kind, walks, walks.len() - 1);
    a_step_stays_on(file, kind, walks.last(), result, after);
    if result is Ok && result->Ok_0 is On {
        let longer = walks.push(after);
        assert forall|i: int| 0 <= i < longer.len() - 1 implies (exists|result: Result<Walked, Fault>|
            result is Ok && result->Ok_0 is On && #[trigger] takes(file, #[trigger] longer[i], result, longer[i + 1])) by {
            if i < walks.len() - 1 {
                let earlier = choose|earlier: Result<Walked, Fault>|
                    earlier is Ok && earlier->Ok_0 is On && #[trigger] takes(file, walks[i], earlier, walks[i + 1]);
                assert(takes(file, longer[i], earlier, longer[i + 1]));
            } else {
                assert(takes(file, longer[i], result, longer[i + 1]));
            }
        }
    }
}

/// A walk that has no header left to read is over a file without a box of the kind, and one whose large size is not there
/// over a file that is cut.
pub proof fn a_walk_misses_no_box(file: Seq<u8>, kind: Kind, walks: Seq<TopLevel>)
    requires
        file.len() <= u64::MAX,
        goes_on(file, kind, walks),
    ensures
        walks.last().large is None && !walks.last().more() ==> holds_from(file, kind, 0) == Holds::Refused(mp4::no_box(kind)),
        walks.last().large is Some && walks.last().offset + 16 > file.len() ==> holds_from(file, kind, 0) is Cut,
{
    a_walk_stays_on(file, kind, walks, walks.len() - 1);
}

} // verus!
