//! The units of a model's weights that the device reads again each time it runs them, when it
//! cannot keep them all.
//!
//! The units read on the way take turns in two regions of one device buffer. While the kernels of
//! one unit run from one region, a thread of its own reads the next unit from the disk into pinned
//! memory and copies it into the other region on a stream of its own. A unit larger than one region
//! takes both. The kernels wait for a copy through an event the copy records, and a copy waits for
//! the kernels that last read its region through an event they record, so neither the thread that
//! launches the kernels nor the one that reads waits on the other while there is work to overlap.
//!
//! A model starts out holding every unit as it was loaded. When the device runs out of memory, it
//! lets go of them all and keeps back, before its next call, as many as the memory left beside
//! that call's buffers allows. The rest are read on the way.
use crate::arithmetic;
use crate::device::{CudaError, DeviceBuffer};
use crate::model::Error;
use crate::text;
use std::collections::VecDeque;
use vstd::prelude::*;

verus! {

/// Memory a model leaves free beside the units it keeps, for what its call allocates after it has
/// settled which units those are.
pub const HEADROOM: usize = 0x2000_0000;

/// What the thread that reads units answers, or what became of it.
pub enum Answer {
    /// The unit is on its way to its region.
    Read,
    /// The read came to this error.
    Failed(String),
    /// The thread could not be started for this error.
    NotStarted(String),
    /// The thread is gone.
    Stopped,
}

/// What an answer of the thread that reads units comes to.
pub fn answer(came: Answer) -> (result: Result<(), Error>)
    ensures
        match came {
            Answer::Read => result is Ok,
            Answer::Failed(error) => result matches Err(found) && found.says("reading weights: "@ + error@),
            Answer::NotStarted(error) => result matches Err(found) && found.says(
                "starting the weight reader: "@ + error@,
            ),
            Answer::Stopped => result matches Err(found) && found.says("the weight reader stopped"@),
        },
{
    match came {
        Answer::Read => Ok(()),
        Answer::Failed(error) => {
            let mut message = String::from_str("reading weights: ");
            message.append(error.as_str());
            Err(Error::Model(message))
        },
        Answer::NotStarted(error) => {
            let mut message = String::from_str("starting the weight reader: ");
            message.append(error.as_str());
            Err(Error::Model(message))
        },
        Answer::Stopped => Err(Error::Model(String::from_str("the weight reader stopped"))),
    }
}

/// Whether `bytes` more fit on the device beside the headroom, where `free` are to be had.
pub fn fits(free: Result<usize, CudaError>, bytes: usize) -> (fits: Result<bool, CudaError>)
    requires
        bytes + HEADROOM <= usize::MAX,
    ensures
        match free {
            Ok(free) => fits == Ok::<bool, CudaError>(free >= bytes + HEADROOM),
            Err(error) => fits == Err::<bool, CudaError>(error),
        },
{
    match free {
        Ok(free) => Ok(free >= bytes + HEADROOM),
        Err(error) => Err(error),
    }
}

/// Where a unit read on the way sits: one of the two regions, or both for a unit too large for one.
#[derive(Clone, Copy, Debug, PartialEq, Eq, Structural)]
pub enum Region {
    One(usize),
    Both,
}

impl Region {
    /// Whether the region takes `half`.
    pub open spec fn takes(self, half: int) -> bool {
        match self {
            Region::One(one) => half == (if one == 0 {
                0int
            } else {
                1int
            }),
            Region::Both => half == 0 || half == 1,
        }
    }

    /// Where in the buffer of both regions it starts, a region being of `region_bytes` bytes.
    pub open spec fn start(self, region_bytes: int) -> int {
        match self {
            Region::One(half) => half * region_bytes,
            Region::Both => 0,
        }
    }

    /// The halves it takes.
    pub open spec fn half_list(self) -> Seq<usize> {
        match self {
            Region::One(half) => if half == 0 {
                seq![0usize]
            } else {
                seq![1usize]
            },
            Region::Both => seq![0usize, 1usize],
        }
    }

    pub fn halves(self) -> (halves: Vec<usize>)
        ensures
            halves@ == self.half_list(),
            forall|half: int| 0 <= half < 2 ==> (self.takes(half) <==> halves@.contains(half as usize)),
    {
        let halves: Vec<usize> = match self {
            Region::One(half) => if half == 0 {
                vec![0usize]
            } else {
                vec![1usize]
            },
            Region::Both => vec![0usize, 1usize],
        };
        proof {
            assert forall|half: int| 0 <= half < 2 implies (self.takes(half) <==> halves@.contains(
                half as usize,
            )) by {
                if self.takes(half) {
                    if self == Region::Both {
                        assert(halves@[half] == half as usize);
                    } else {
                        assert(halves@[0] == half as usize);
                    }
                }
            }
        }
        halves
    }

    pub fn offset(self, region_bytes: usize) -> (offset: usize)
        requires
            self.start(region_bytes as int) <= usize::MAX,
        ensures
            offset == self.start(region_bytes as int),
    {
        match self {
            Region::One(half) => half * region_bytes,
            Region::Both => 0,
        }
    }

    fn has(self, half: usize) -> (taken: bool)
        requires
            half < 2,
        ensures
            taken == self.takes(half as int),
    {
        match self {
            Region::One(one) => (one == 0) == (half == 0),
            Region::Both => true,
        }
    }
}

/// A tensor of a unit, at its place in the unit's bytes.
pub struct UnitTensor {
    pub name: String,
    pub offset: usize,
    pub bytes: usize,
}

/// Weights that are read and let go of together, and the name their tensors' names begin with.
pub struct Unit {
    pub name: String,
    pub bytes: usize,
    pub tensors: Vec<UnitTensor>,
}

impl Unit {
    /// Every tensor lies inside the unit, which leaves room to be counted beside the headroom.
    pub open spec fn valid(self) -> bool {
        &&& self.bytes + HEADROOM <= usize::MAX
        &&& forall|t: int|
            0 <= t < self.tensors@.len() ==> (#[trigger] self.tensors@[t]).offset + self.tensors@[t].bytes <= self.bytes
    }
}

/// Where a unit's weights are.
pub enum Kept {
    /// In tensors of their own in the model's table, as a whole load leaves them.
    Tensors,
    /// In one buffer laid out as the unit is.
    Buffer(DeviceBuffer),
    /// Nowhere: read into a region whenever the unit runs.
    Read(Region),
}

/// The two regions units read on the way take turns in.
pub struct Regions {
    /// Bytes of one region.
    pub bytes: usize,
    pub device: DeviceBuffer,
    /// Files the reader of this model reads from, which a patch adds to.
    pub files: usize,
    /// The unit each region holds whole, which a call that runs it again need not read.
    pub holds: [Option<usize>; 2],
}

/// The units of one model and where each one's weights are.
pub struct Stream {
    /// What the units are, for the line that says how many are kept, such as "text encoder layers".
    pub what: String,
    pub units: Vec<Unit>,
    pub kept: Vec<Kept>,
    /// The order in which the units are given up.
    pub give_up: Vec<usize>,
    /// The units a model runs at every call, whose size sets the regions': from this one on,
    pub sized_start: usize,
    /// and before this one.
    pub sized_end: usize,
    pub regions: Option<Regions>,
    /// Whether the units kept back fit beside the buffers of the calls so far.
    pub settled: bool,
}

/// Where a tensor of a unit is.
#[derive(Clone, Copy, Debug, PartialEq, Eq, Structural)]
pub struct Placement {
    pub unit: usize,
    pub tensor: usize,
    pub address: usize,
    pub bytes: usize,
    pub device: usize,
}

/// The most bytes of the units from `start` on and before `end`.
pub open spec fn largest(units: Seq<Unit>, start: int, end: int) -> nat
    decreases end - start,
{
    if start >= end {
        0
    } else {
        arithmetic::max(largest(units, start, end - 1) as int, units[end - 1].bytes as int) as nat
    }
}

/// What one region has to hold: the largest unit that runs at every call, or half of the largest
/// there is.
pub open spec fn region_bytes(units: Seq<Unit>, sized_start: int, sized_end: int, alignment: int) -> int {
    arithmetic::round_up(
        arithmetic::max(
            largest(units, sized_start, sized_end) as int,
            arithmetic::ceil_div(largest(units, 0, units.len() as int) as int, 2),
        ),
        alignment,
    )
}

/// How many of the first `count` units take one region, in turn.
pub open spec fn turns(units: Seq<Unit>, kept: Seq<Kept>, bytes: int, count: int) -> nat
    decreases count,
{
    if count <= 0 {
        0
    } else {
        turns(units, kept, bytes, count - 1) + (if kept[count - 1] is Read && units[count - 1].bytes <= bytes {
            1nat
        } else {
            0nat
        })
    }
}

/// The region the unit `index` takes: both where it is larger than one, and the one that the unit
/// before it in turn does not take otherwise.
pub open spec fn region_of(units: Seq<Unit>, kept: Seq<Kept>, bytes: int, index: int) -> Region {
    if units[index].bytes > bytes {
        Region::Both
    } else {
        Region::One((turns(units, kept, bytes, index) % 2) as usize)
    }
}

/// Where the bytes of a unit start, and on which device, unless it is held as tensors. The regions
/// are of `bytes` bytes each, in the buffer `device`.
pub open spec fn home(kept: Kept, device: DeviceBuffer, bytes: int) -> Option<(int, nat)> {
    match kept {
        Kept::Tensors => None,
        Kept::Buffer(buffer) => Some((buffer.at() as int, buffer.home())),
        Kept::Read(region) => Some((device.at() + region.start(bytes), device.home())),
    }
}

/// Where the first `count` tensors of `unit`, the unit `index`, are when its bytes start at `start`.
pub open spec fn tensor_placements(unit: Unit, index: int, start: int, device: nat, count: int) -> Seq<Placement> {
    Seq::new(
        count as nat,
        |t: int|
            Placement {
                unit: index as usize,
                tensor: t as usize,
                address: (start + unit.tensors@[t].offset) as usize,
                bytes: unit.tensors@[t].bytes,
                device: device as usize,
            },
    )
}

/// Where the tensors of the first `count` units are.
pub open spec fn placements(
    units: Seq<Unit>,
    kept: Seq<Kept>,
    device: DeviceBuffer,
    bytes: int,
    count: int,
) -> Seq<Placement>
    decreases count,
{
    if count <= 0 {
        Seq::empty()
    } else {
        let before = placements(units, kept, device, bytes, count - 1);
        match home(kept[count - 1], device, bytes) {
            None => before,
            Some((start, on)) => before + tensor_placements(
                units[count - 1],
                count - 1,
                start,
                on,
                units[count - 1].tensors@.len() as int,
            ),
        }
    }
}

/// Whether the weights of a unit of `bytes` bytes fit where `kept` says they are.
pub open spec fn fits_in(kept: Kept, bytes: int, regions: Regions) -> bool {
    match kept {
        Kept::Tensors => true,
        Kept::Buffer(buffer) => buffer.valid() && buffer.size() == bytes,
        Kept::Read(Region::One(half)) => half < 2 && bytes <= regions.bytes,
        Kept::Read(Region::Both) => bytes <= 2 * regions.bytes,
    }
}

impl Regions {
    /// The device buffer is both regions and nothing else.
    pub open spec fn valid(self) -> bool {
        self.device.valid() && self.device.size() == 2 * self.bytes
    }
}

impl Stream {
    /// Every unit has a place and is given up once, and the sized units are units.
    pub open spec fn valid(self) -> bool {
        let count = self.units@.len();
        &&& self.kept@.len() == count
        &&& self.give_up@.len() == count
        &&& self.give_up@.no_duplicates()
        &&& forall|k: int| 0 <= k < count ==> (#[trigger] self.give_up@[k]) < count
        &&& self.sized_start <= self.sized_end <= count
        &&& forall|i: int| 0 <= i < count ==> (#[trigger] self.units@[i]).valid()
        &&& self.regions matches Some(regions) ==> regions.valid()
    }

    /// Every unit's weights fit where they are, and a region that holds a unit is one it takes.
    pub open spec fn placed(self) -> bool {
        &&& self.valid()
        &&& self.regions matches Some(regions) ==> {
            &&& forall|i: int|
                0 <= i < self.kept@.len() ==> fits_in(#[trigger] self.kept@[i], self.units@[i].bytes as int, regions)
            &&& forall|half: int|
                0 <= half < 2 ==> ((#[trigger] regions.holds@[half]) matches Some(index) ==> {
                    &&& index < self.kept@.len()
                    &&& self.kept@[index as int] matches Kept::Read(region) && region.takes(half)
                })
        }
        &&& self.regions is None ==> forall|i: int| 0 <= i < self.kept@.len() ==> (#[trigger] self.kept@[i]) !is Buffer
    }

    /// The region of the unit `index`, where it is read on the way.
    pub open spec fn reads_into(self, index: int) -> Option<Region> {
        match self.kept@[index] {
            Kept::Read(region) => Some(region),
            _ => None,
        }
    }

    /// `units` in the order a call runs them, all held as tensors of their own, as a whole load
    /// leaves them. `give_up` is the order in which they go when the device is short of memory.
    pub fn new(
        what: String,
        units: Vec<Unit>,
        give_up: Vec<usize>,
        sized_start: usize,
        sized_end: usize,
    ) -> (stream: Stream)
        requires
            give_up@.len() == units@.len(),
            give_up@.no_duplicates(),
            forall|k: int| 0 <= k < give_up@.len() ==> (#[trigger] give_up@[k]) < units@.len(),
            sized_start <= sized_end <= units@.len(),
            forall|i: int| 0 <= i < units@.len() ==> (#[trigger] units@[i]).valid(),
        ensures
            stream.placed(),
            stream.what@ == what@,
            stream.units@ == units@,
            stream.give_up@ == give_up@,
            stream.sized_start == sized_start,
            stream.sized_end == sized_end,
            stream.regions is None,
            !stream.settled,
            forall|i: int| 0 <= i < units@.len() ==> (#[trigger] stream.kept@[i]) == Kept::Tensors,
    {
        let mut kept: Vec<Kept> = Vec::new();
        let count: usize = units.len();
        for index in 0..count
            invariant
                kept@.len() == index,
                forall|i: int| 0 <= i < index ==> (#[trigger] kept@[i]) == Kept::Tensors,
        {
            kept.push(Kept::Tensors);
        }
        Stream { what, units, kept, give_up, sized_start, sized_end, regions: None, settled: false }
    }

    /// Whether some units are read on the way rather than held as a whole load leaves them.
    pub fn reads(&self) -> (reads: bool)
        ensures
            reads == self.regions is Some,
    {
        self.regions.is_some()
    }

    /// Whether `index` is the last unit of the name `name`.
    pub open spec fn named(self, name: Seq<char>, index: int) -> bool {
        &&& 0 <= index < self.units@.len()
        &&& self.units@[index].name@ == name
        &&& forall|other: int| index < other < self.units@.len() ==> (#[trigger] self.units@[other]).name@ != name
    }

    /// Whether there is a dot at `end` of `name` and a unit of the name before it.
    pub open spec fn prefixed(self, name: Seq<char>, end: int) -> bool {
        &&& 0 <= end < name.len()
        &&& name[end] == '.'
        &&& exists|index: int| self.named(name.take(end), index)
    }

    fn find(&self, name: &String) -> (found: Option<usize>)
        ensures
            match found {
                Some(index) => self.named(name@, index as int),
                None => forall|index: int| !self.named(name@, index),
            },
    {
        let mut count: usize = self.units.len();
        while count > 0
            invariant
                count <= self.units@.len(),
                forall|other: int| count <= other < self.units@.len() ==> (#[trigger] self.units@[other]).name@ != name@,
            decreases count,
        {
            count = count - 1;
            if self.units[count].name == *name {
                return Some(count);
            }
        }
        None
    }

    /// The unit a tensor belongs to: the one whose name is the longest prefix of the tensor's,
    /// up to a dot.
    pub fn unit_of(&self, name: &str) -> (unit: Option<usize>)
        ensures
            match unit {
                Some(index) => exists|end: int|
                    {
                        &&& #[trigger] self.prefixed(name@, end)
                        &&& self.named(name@.take(end), index as int)
                        &&& forall|longer: int| end < longer ==> !#[trigger] self.prefixed(name@, longer)
                    },
                None => forall|end: int| !#[trigger] self.prefixed(name@, end),
            },
    {
        let mut end: usize = name.unicode_len();
        while end > 0
            invariant
                end <= name@.len(),
                forall|longer: int| end <= longer ==> !#[trigger] self.prefixed(name@, longer),
            decreases end,
        {
            end = end - 1;
            if name.get_char(end) == '.' {
                let prefix = String::from_str(name.substring_char(0, end));
                assert(prefix@ =~= name@.take(end as int));
                let found = self.find(&prefix);
                if let Some(index) = found {
                    assert(self.prefixed(name@, end as int));
                    return Some(index);
                }
            }
        }
        None
    }

    /// Puts `unit` in the place of the unit `index`, which a model does when a patch brought a
    /// tensor of it. A model that holds the unit as tensors of its own changes those itself, and one
    /// that reads units on the way lets go of them once it has changed them all.
    pub fn insert(&mut self, index: usize, unit: Unit)
        requires
            old(self).valid(),
            index < old(self).units@.len(),
            unit.valid(),
        ensures
            final(self).valid(),
            final(self).units@ == old(self).units@.update(index as int, unit),
            final(self).what == old(self).what,
            final(self).kept == old(self).kept,
            final(self).give_up == old(self).give_up,
            final(self).sized_start == old(self).sized_start,
            final(self).sized_end == old(self).sized_end,
            final(self).regions == old(self).regions,
            final(self).settled == old(self).settled,
    {
        self.units.set(index, unit);
    }
}

/// What a model that lets go of its units has to free, and what it needs in their place.
pub struct LetGo {
    /// The buffers of the units that were kept back.
    pub freed: Vec<DeviceBuffer>,
    /// The regions that no longer fit, which go before new ones are allocated.
    pub outgrown: Option<Regions>,
    /// Bytes of one region of the two to allocate, unless those there are still fit.
    pub wants: Option<usize>,
}

/// The buffers of the first `count` units that are kept back.
pub open spec fn buffers(kept: Seq<Kept>, count: int) -> Seq<DeviceBuffer>
    decreases count,
{
    if count <= 0 {
        Seq::empty()
    } else {
        match kept[count - 1] {
            Kept::Buffer(buffer) => buffers(kept, count - 1).push(buffer),
            _ => buffers(kept, count - 1),
        }
    }
}

proof fn largest_is_most(units: Seq<Unit>, start: int, end: int)
    requires
        0 <= start <= end <= units.len(),
    ensures
        largest(units, start, end) <= usize::MAX,
        forall|i: int| start <= i < end ==> (#[trigger] units[i]).bytes <= largest(units, start, end),
    decreases end - start,
{
    if start < end {
        largest_is_most(units, start, end - 1);
    }
}

/// A region is aligned, holds every unit that runs at every call, and the two of them together hold
/// every unit there is.
pub proof fn regions_hold_every_unit(units: Seq<Unit>, sized_start: int, sized_end: int, alignment: int, index: int)
    requires
        0 <= sized_start <= sized_end <= units.len(),
        0 <= index < units.len(),
        alignment > 0,
    ensures
        region_bytes(units, sized_start, sized_end, alignment) % alignment == 0,
        units[index].bytes <= 2 * region_bytes(units, sized_start, sized_end, alignment),
        sized_start <= index < sized_end ==> units[index].bytes <= region_bytes(
            units,
            sized_start,
            sized_end,
            alignment,
        ),
{
    largest_is_most(units, 0, units.len() as int);
    largest_is_most(units, sized_start, sized_end);
    let all = largest(units, 0, units.len() as int) as int;
    let sized = largest(units, sized_start, sized_end) as int;
    arithmetic::ceil_div_is_least(all, 2);
    arithmetic::round_up_is_least(arithmetic::max(sized, arithmetic::ceil_div(all, 2)), alignment);
}

impl Stream {
    /// Makes room on a device that ran out of memory, where there is any to make: a model holding
    /// its units as it loaded them starts reading them on the way, and one that already does lets
    /// go of the units it kept back, to keep back fewer before its next call. Either way by
    /// `let_go`.
    pub fn make_room(&self) -> (room: bool)
        ensures
            room == (self.regions is None || exists|i: int|
                0 <= i < self.kept@.len() && (#[trigger] self.kept@[i]) is Buffer),
    {
        if !self.reads() {
            return true;
        }
        let count: usize = self.kept.len();
        for index in 0..count
            invariant
                count == self.kept@.len(),
                forall|i: int| 0 <= i < index ==> (#[trigger] self.kept@[i]) !is Buffer,
        {
            if let Kept::Buffer(_) = &self.kept[index] {
                return true;
            }
        }
        false
    }

    fn largest_unit(&self, start: usize, end: usize) -> (bytes: usize)
        requires
            start <= end <= self.units@.len(),
        ensures
            bytes == largest(self.units@, start as int, end as int),
    {
        let mut bytes: usize = 0;
        for index in start..end
            invariant
                start <= end <= self.units@.len(),
                bytes == largest(self.units@, start as int, index as int),
        {
            bytes = arithmetic::greatest(bytes, self.units[index].bytes);
        }
        bytes
    }

    /// Lets go of every unit kept back and sizes the regions for the units as they are now, which
    /// all are read into a region from then on. The views of their tensors go before this, so that
    /// a model that fails to allocate the regions is missing the tensors rather than reading memory
    /// it no longer holds. New regions, if any are wanted, are handed to `open`, and `resume` points
    /// the tensors at where the units are.
    pub fn let_go(&mut self, alignment: usize, files: usize) -> (gone: LetGo)
        requires
            old(self).valid(),
            alignment > 0,
            2 * region_bytes(
                old(self).units@,
                old(self).sized_start as int,
                old(self).sized_end as int,
                alignment as int,
            ) <= usize::MAX,
        ensures
            final(self).valid(),
            final(self).units@ == old(self).units@,
            final(self).what == old(self).what,
            final(self).give_up == old(self).give_up,
            final(self).sized_start == old(self).sized_start,
            final(self).sized_end == old(self).sized_end,
            final(self).settled == old(self).settled,
            forall|i: int|
                0 <= i < final(self).kept@.len() ==> (#[trigger] final(self).kept@[i]) == Kept::Read(Region::Both),
            gone.freed@ == buffers(old(self).kept@, old(self).kept@.len() as int),
            ({
                let bytes = region_bytes(
                    old(self).units@,
                    old(self).sized_start as int,
                    old(self).sized_end as int,
                    alignment as int,
                );
                if old(self).regions matches Some(regions) && regions.bytes == bytes && regions.files == files {
                    &&& gone.wants is None
                    &&& gone.outgrown is None
                    &&& final(self).regions == old(self).regions
                } else {
                    &&& gone.wants == Some(bytes as usize)
                    &&& gone.outgrown == old(self).regions
                    &&& final(self).regions is None
                }
            }),
    {
        let sized: usize = self.largest_unit(self.sized_start, self.sized_end);
        let all: usize = self.largest_unit(0, self.units.len());
        proof {
            arithmetic::ceil_div_is_least(all as int, 2);
            arithmetic::round_up_is_least(
                arithmetic::max(sized as int, arithmetic::ceil_div(all as int, 2)),
                alignment as int,
            );
        }
        let bytes: usize = arithmetic::rounded_up(
            arithmetic::greatest(sized, arithmetic::units(all, 2)),
            alignment,
        );
        let mut freed: Vec<DeviceBuffer> = Vec::new();
        let mut reading: Vec<Kept> = Vec::new();
        let ghost before = self.kept@;
        let mut kept: Vec<Kept> = Vec::new();
        std::mem::swap(&mut kept, &mut self.kept);
        for place in places: kept
            invariant
                places.seq() == before,
                reading@.len() == places.index(),
                forall|i: int| 0 <= i < reading@.len() ==> (#[trigger] reading@[i]) == Kept::Read(Region::Both),
                freed@ == buffers(before, places.index() as int),
        {
            if let Kept::Buffer(buffer) = place {
                freed.push(buffer);
            }
            reading.push(Kept::Read(Region::Both));
        }
        self.kept = reading;
        let fit = match &self.regions {
            Some(regions) => regions.bytes == bytes && regions.files == files,
            None => false,
        };
        if fit {
            LetGo { freed, outgrown: None, wants: None }
        } else {
            let outgrown = self.regions.take();
            LetGo { freed, outgrown, wants: Some(bytes) }
        }
    }
}

proof fn one_region_fits(region: Region, bytes: int)
    requires
        bytes >= 0,
    ensures
        region matches Region::One(half) && half < 2 ==> 0 <= region.start(bytes) <= bytes,
{
    if let Region::One(half) = region {
        if half < 2 {
            assert(0 <= half * bytes <= bytes) by (nonlinear_arith)
                requires
                    half < 2,
                    bytes >= 0,
            ;
        }
    }
}

/// The places of `kept` with every unit read on the way in its turn's region.
pub open spec fn in_turn(units: Seq<Unit>, kept: Seq<Kept>, bytes: int) -> Seq<Kept> {
    Seq::new(
        kept.len(),
        |i: int|
            match kept[i] {
                Kept::Read(_) => Kept::Read(region_of(units, kept, bytes, i)),
                place => place,
            },
    )
}

/// Two units that follow each other in turn, with none between them that is read into one region,
/// take different regions, so that one is read while the one before runs.
pub proof fn turns_alternate(units: Seq<Unit>, kept: Seq<Kept>, bytes: int, first: int, second: int)
    requires
        0 <= first < second < units.len(),
        kept.len() == units.len(),
        kept[first] is Read,
        kept[second] is Read,
        units[first].bytes <= bytes,
        units[second].bytes <= bytes,
        forall|i: int| first < i < second ==> !((#[trigger] kept[i]) is Read && units[i].bytes <= bytes),
    ensures
        region_of(units, kept, bytes, first) != region_of(units, kept, bytes, second),
{
    no_turns_between(units, kept, bytes, first + 1, second);
    let before = turns(units, kept, bytes, first);
    assert(turns(units, kept, bytes, first + 1) == before + 1);
    assert((before + 1) % 2 != before % 2);
}

proof fn no_turns_between(units: Seq<Unit>, kept: Seq<Kept>, bytes: int, start: int, end: int)
    requires
        0 <= start <= end <= units.len(),
        kept.len() == units.len(),
        forall|i: int| start <= i < end ==> !((#[trigger] kept[i]) is Read && units[i].bytes <= bytes),
    ensures
        turns(units, kept, bytes, end) == turns(units, kept, bytes, start),
    decreases end - start,
{
    if start < end {
        assert(!(kept[end - 1] is Read && units[end - 1].bytes <= bytes));
        no_turns_between(units, kept, bytes, start, end - 1);
    }
}

impl Stream {
    /// Takes the device buffer of both regions, of `bytes` bytes each, for a reader of `files` files.
    pub fn open(&mut self, bytes: usize, device: DeviceBuffer, files: usize)
        requires
            old(self).valid(),
            device.valid(),
            device.size() == 2 * bytes,
        ensures
            final(self).valid(),
            final(self).regions == Some(Regions { bytes, device, files, holds: [None, None] }),
            final(self).units == old(self).units,
            final(self).kept == old(self).kept,
            final(self).what == old(self).what,
            final(self).give_up == old(self).give_up,
            final(self).sized_start == old(self).sized_start,
            final(self).sized_end == old(self).sized_end,
            final(self).settled == old(self).settled,
    {
        self.regions = Some(Regions { bytes, device, files, holds: [None, None] });
    }

    /// Every unit that is kept back or read on the way fits its buffer or the regions.
    pub open spec fn assignable(self) -> bool {
        &&& self.valid()
        &&& self.regions matches Some(regions)
        &&& forall|i: int|
            0 <= i < self.kept@.len() ==> match #[trigger] self.kept@[i] {
                Kept::Tensors => true,
                Kept::Buffer(buffer) => buffer.valid() && buffer.size() == self.units@[i].bytes,
                Kept::Read(_) => self.units@[i].bytes <= 2 * regions.bytes,
            }
    }

    /// Gives every unit read on the way its region, alternating so that one is read while the one
    /// before runs, and says where every unit's tensors are then.
    fn assign(&mut self) -> (views: Vec<Placement>)
        requires
            old(self).assignable(),
        ensures
            final(self).placed(),
            final(self).units == old(self).units,
            final(self).what == old(self).what,
            final(self).give_up == old(self).give_up,
            final(self).sized_start == old(self).sized_start,
            final(self).sized_end == old(self).sized_end,
            final(self).settled == old(self).settled,
            ({
                let regions = old(self).regions->0;
                let bytes = regions.bytes as int;
                &&& final(self).regions == Some(Regions { holds: [None, None], ..regions })
                &&& final(self).kept@ == in_turn(old(self).units@, old(self).kept@, bytes)
                &&& views@ == placements(
                    old(self).units@,
                    in_turn(old(self).units@, old(self).kept@, bytes),
                    regions.device,
                    bytes,
                    old(self).units@.len() as int,
                )
            }),
    {
        let mut views: Vec<Placement> = Vec::new();
        match self.regions.take() {
            None => {},
            Some(regions) => {
                let ghost before = self.kept@;
                let ghost device = regions.device;
                let bytes: usize = regions.bytes;
                let base: usize = regions.device.pointer();
                let on: usize = regions.device.device();
                let count: usize = self.units.len();
                proof {
                    regions.device.ends_at_an_address();
                }
                let ghost turned = in_turn(self.units@, before, bytes as int);
                let mut next: usize = 0;
                for index in 0..count
                    invariant
                        count == self.units@.len(),
                        self.units == old(self).units,
                        self.what == old(self).what,
                        self.give_up == old(self).give_up,
                        self.sized_start == old(self).sized_start,
                        self.sized_end == old(self).sized_end,
                        self.settled == old(self).settled,
                        before == old(self).kept@,
                        before.len() == count,
                        self.kept@.len() == count,
                        turned == in_turn(self.units@, before, bytes as int),
                        forall|i: int| 0 <= i < index ==> (#[trigger] self.kept@[i]) == turned[i],
                        forall|i: int| index <= i < count ==> (#[trigger] self.kept@[i]) == before[i],
                        next == turns(self.units@, before, bytes as int, index as int),
                        next <= index,
                {
                    let reading = match &self.kept[index] {
                        Kept::Read(_) => true,
                        _ => false,
                    };
                    if reading {
                        let region = if self.units[index].bytes > bytes {
                            Region::Both
                        } else {
                            next = next + 1;
                            Region::One((next - 1) % 2)
                        };
                        self.kept.set(index, Kept::Read(region));
                    }
                }
                assert(self.kept@ =~= turned);
                for index in 0..count
                    invariant
                        count == self.units@.len(),
                        self.kept@ == turned,
                        turned.len() == count,
                        device.valid(),
                        device.size() == 2 * bytes,
                        base == device.at(),
                        on == device.home(),
                        base + 2 * bytes <= usize::MAX,
                        turned == in_turn(self.units@, before, bytes as int),
                        before.len() == count,
                        forall|i: int| 0 <= i < count ==> (#[trigger] self.units@[i]).valid(),
                        forall|i: int|
                            0 <= i < count ==> match #[trigger] before[i] {
                                Kept::Tensors => true,
                                Kept::Buffer(buffer) => buffer.valid() && buffer.size() == self.units@[i].bytes,
                                Kept::Read(_) => self.units@[i].bytes <= 2 * bytes,
                            },
                        views@ == placements(self.units@, turned, device, bytes as int, index as int),
                {
                    let ghost listed = views@;
                    assert(self.units@[index as int].valid());
                    let start: Option<(usize, usize)> = match &self.kept[index] {
                        Kept::Tensors => None,
                        Kept::Buffer(buffer) => {
                            assert(before[index as int] == turned[index as int]);
                            proof {
                                buffer.ends_at_an_address();
                            }
                            Some((buffer.pointer(), buffer.device()))
                        },
                        Kept::Read(region) => {
                            proof {
                                assert(before[index as int] is Read);
                                assert(turned[index as int] == Kept::Read(*region));
                                one_region_fits(*region, bytes as int);
                            }
                            Some((base + region.offset(bytes), on))
                        },
                    };
                    if let Some((first, home_device)) = start {
                        let tensors: usize = self.units[index].tensors.len();
                        let ghost unit = self.units@[index as int];
                        assert(views@ =~= listed + tensor_placements(
                            unit,
                            index as int,
                            first as int,
                            home_device as nat,
                            0,
                        ));
                        for tensor in 0..tensors
                            invariant
                                index < self.units@.len(),
                                unit == self.units@[index as int],
                                unit.valid(),
                                tensors == unit.tensors@.len(),
                                first + unit.bytes <= usize::MAX,
                                views@ == listed + tensor_placements(
                                    unit,
                                    index as int,
                                    first as int,
                                    home_device as nat,
                                    tensor as int,
                                ),
                        {
                            let piece = &self.units[index].tensors[tensor];
                            views.push(
                                Placement {
                                    unit: index,
                                    tensor,
                                    address: first + piece.offset,
                                    bytes: piece.bytes,
                                    device: home_device,
                                },
                            );
                            assert(views@ =~= listed + tensor_placements(
                                unit,
                                index as int,
                                first as int,
                                home_device as nat,
                                tensor + 1,
                            ));
                        }
                    }
                }
                self.regions = Some(
                    Regions { bytes, device: regions.device, files: regions.files, holds: [None, None] },
                );
            },
        }
        views
    }

    /// Points every unit at its region once the regions are there, and leaves it to the next call to
    /// keep back what fits.
    pub fn resume(&mut self) -> (views: Vec<Placement>)
        requires
            old(self).assignable(),
        ensures
            final(self).placed(),
            final(self).units == old(self).units,
            final(self).what == old(self).what,
            final(self).give_up == old(self).give_up,
            final(self).sized_start == old(self).sized_start,
            final(self).sized_end == old(self).sized_end,
            !final(self).settled,
            ({
                let regions = old(self).regions->0;
                let bytes = regions.bytes as int;
                &&& final(self).regions == Some(Regions { holds: [None, None], ..regions })
                &&& final(self).kept@ == in_turn(old(self).units@, old(self).kept@, bytes)
                &&& views@ == placements(
                    old(self).units@,
                    in_turn(old(self).units@, old(self).kept@, bytes),
                    regions.device,
                    bytes,
                    old(self).units@.len() as int,
                )
            }),
    {
        let views = self.assign();
        self.settled = false;
        views
    }
}

/// A tensor of a unit read on the way lies inside the regions, and inside the one region that its
/// unit takes where it takes one. A tensor of a unit kept back lies inside the unit's buffer.
pub proof fn tensors_stay_in_their_region(stream: Stream, index: int, tensor: int)
    requires
        stream.placed(),
        stream.regions is Some,
        0 <= index < stream.units@.len(),
        0 <= tensor < stream.units@[index].tensors@.len(),
    ensures
        ({
            let regions = stream.regions->0;
            let piece = stream.units@[index].tensors@[tensor];
            match stream.kept@[index] {
                Kept::Tensors => true,
                Kept::Buffer(buffer) => piece.offset + piece.bytes <= buffer.size(),
                Kept::Read(region) => {
                    let start = region.start(regions.bytes as int) + piece.offset;
                    &&& 0 <= start
                    &&& start + piece.bytes <= regions.device.size()
                    &&& region matches Region::One(half) ==> half * regions.bytes <= start && start + piece.bytes <= (
                    half + 1) * regions.bytes
                },
            }
        }),
{
    let regions = stream.regions->0;
    assert(stream.units@[index].valid());
    assert(fits_in(stream.kept@[index], stream.units@[index].bytes as int, regions));
    if let Kept::Read(region) = stream.kept@[index] {
        one_region_fits(region, regions.bytes as int);
        if let Region::One(half) = region {
            assert((half + 1) * regions.bytes == half * regions.bytes + regions.bytes) by (nonlinear_arith);
        }
    }
}

/// One unit for the reading thread to bring to the device.
pub struct Request {
    pub unit: usize,
    /// The device address the unit is copied to.
    pub destination: usize,
    /// The halves of the pinned memory the unit passes through, which are also the regions a unit
    /// read on the way lands in.
    pub region: Region,
    /// Whether the copy waits for the kernels that last read the regions it lands in.
    pub gated: bool,
}

impl Request {
    /// Where in the pinned memory of both halves, of `region_bytes` bytes each, a unit of `bytes`
    /// bytes is staged.
    pub fn staged(&self, region_bytes: usize, bytes: usize) -> (range: (usize, usize))
        requires
            2 * region_bytes <= usize::MAX,
            self.region is One ==> bytes <= region_bytes,
            self.region is Both ==> bytes <= 2 * region_bytes,
        ensures
            range.0 == self.region.half_list()[0] * region_bytes,
            range.1 == range.0 + bytes,
            range.1 <= 2 * region_bytes,
    {
        let start: usize = match self.region {
            Region::One(half) => if half == 0 {
                0
            } else {
                region_bytes
            },
            Region::Both => 0,
        };
        proof {
            let half = self.region.half_list()[0];
            assert(half == 0 || half == 1);
            assert(half * region_bytes == start) by (nonlinear_arith)
                requires
                    half == 0 ==> start == 0,
                    half == 1 ==> start == region_bytes,
                    half == 0 || half == 1,
            ;
        }
        (start, start + bytes)
    }
}

/// Bytes of the units `kept` together.
pub open spec fn kept_bytes(units: Seq<Unit>, kept: Seq<(usize, DeviceBuffer)>) -> int
    decreases kept.len(),
{
    if kept.len() == 0 {
        0
    } else {
        kept_bytes(units, kept.drop_last()) + units[kept.last().0 as int].bytes
    }
}

/// Units being kept back beside what the device holds, the ones given up last before the others.
pub struct Settling {
    /// How many units may still be kept back, in the order they are given up.
    left: usize,
    /// What the device had to give at the start.
    available: usize,
    /// What the device has left.
    free: usize,
    /// The units kept back, and the buffer of each.
    kept: Vec<(usize, DeviceBuffer)>,
}

impl Settling {
    /// The units kept back are the last ones of the order they are given up in, from the last on,
    /// each in a buffer of its size, and they leave the headroom of what was free.
    pub closed spec fn valid(self, stream: Stream) -> bool {
        let count = stream.give_up@.len();
        &&& self.left + self.kept@.len() <= count
        &&& self.left > 0 ==> self.left + self.kept@.len() == count
        &&& forall|k: int|
            0 <= k < self.kept@.len() ==> {
                &&& (#[trigger] self.kept@[k]).0 == stream.give_up@[count - 1 - k]
                &&& self.kept@[k].1.valid()
                &&& self.kept@[k].1.size() == stream.units@[self.kept@[k].0 as int].bytes
            }
        &&& self.free + kept_bytes(stream.units@, self.kept@) == self.available
        &&& self.kept@.len() > 0 ==> self.free >= HEADROOM
    }

    pub closed spec fn kept(self) -> Seq<(usize, DeviceBuffer)> {
        self.kept@
    }

    pub closed spec fn free(self) -> nat {
        self.free as nat
    }

    pub closed spec fn available(self) -> nat {
        self.available as nat
    }

    pub closed spec fn left(self) -> nat {
        self.left as nat
    }

    /// The unit that would be kept back next, if it fits beside the headroom.
    pub open spec fn candidate(self, stream: Stream) -> Option<usize> {
        if self.left() == 0 {
            None
        } else {
            let index = stream.give_up@[self.left() - 1];
            if self.free() < stream.units@[index as int].bytes + HEADROOM {
                None
            } else {
                Some(index)
            }
        }
    }

    /// Starts with nothing kept back and `free` bytes to be had.
    pub fn new(stream: &Stream, free: usize) -> (settling: Settling)
        requires
            stream.valid(),
        ensures
            settling.valid(*stream),
            settling.available() == free,
            settling.kept() == Seq::<(usize, DeviceBuffer)>::empty(),
            settling.free() == free,
            settling.left() == stream.give_up@.len(),
    {
        Settling { left: stream.give_up.len(), available: free, free, kept: Vec::new() }
    }

    /// Bytes to allocate for the next unit to keep back, or nothing once no more fit.
    pub fn wants(&self, stream: &Stream) -> (bytes: Option<usize>)
        requires
            stream.valid(),
            self.valid(*stream),
        ensures
            bytes == (match self.candidate(*stream) {
                Some(index) => Some(stream.units@[index as int].bytes),
                None => None,
            }),
    {
        if self.left == 0 {
            return None;
        }
        let index: usize = stream.give_up[self.left - 1];
        assert(stream.units@[index as int].valid());
        let bytes: usize = stream.units[index].bytes;
        if self.free < bytes + HEADROOM {
            None
        } else {
            Some(bytes)
        }
    }

    /// Takes the buffer that was allocated for the unit it wanted.
    pub fn took(&mut self, stream: &Stream, buffer: DeviceBuffer)
        requires
            stream.valid(),
            old(self).valid(*stream),
            old(self).candidate(*stream) matches Some(index) && buffer.size() == stream.units@[index as int].bytes,
            buffer.valid(),
        ensures
            final(self).valid(*stream),
            final(self).available() == old(self).available(),
            final(self).left() == old(self).left() - 1,
            final(self).free() == old(self).free() - buffer.size(),
            final(self).kept() == old(self).kept().push((old(self).candidate(*stream)->0, buffer)),
    {
        let index: usize = stream.give_up[self.left - 1];
        self.free = self.free - stream.units[index].bytes;
        self.left = self.left - 1;
        self.kept.push((index, buffer));
        assert(self.kept@.drop_last() =~= old(self).kept@);
    }

    /// Takes that the device had no buffer for the unit it wanted: the units so far are the ones
    /// kept back where the device was out of memory, and any other error is one.
    pub fn refused(&mut self, stream: &Stream, error: CudaError) -> (result: Result<(), CudaError>)
        requires
            old(self).valid(*stream),
        ensures
            final(self).valid(*stream),
            final(self).available() == old(self).available(),
            final(self).kept() == old(self).kept(),
            final(self).free() == old(self).free(),
            error.code == crate::device::OUT_OF_MEMORY ==> result is Ok && final(self).left() == 0,
            error.code != crate::device::OUT_OF_MEMORY ==> result == Err::<(), CudaError>(error) && final(self).left()
                == old(self).left(),
    {
        if error.is_out_of_memory() {
            self.left = 0;
            Ok(())
        } else {
            Err(error)
        }
    }

    /// What of what was free is left once the units are kept back, at least the headroom where any
    /// were.
    pub proof fn leaves_the_headroom(&self, stream: Stream)
        requires
            self.valid(stream),
        ensures
            self.free() + kept_bytes(stream.units@, self.kept()) == self.available(),
            self.kept().len() > 0 ==> self.free() >= HEADROOM,
            self.kept().len() <= stream.give_up@.len(),
            forall|k: int|
                0 <= k < self.kept().len() ==> (#[trigger] self.kept()[k]).0 == stream.give_up@[stream.give_up@.len() - 1
                    - k],
    {
    }

    /// The request for the unit kept back as number `sent`: the units pass through the pinned memory
    /// one half at a time, or through both for a unit too large for one.
    pub open spec fn request(self, stream: Stream, sent: int) -> Request {
        let (index, buffer) = self.kept()[sent];
        Request {
            unit: index,
            destination: buffer.at() as usize,
            region: if stream.units@[index as int].bytes > stream.regions->0.bytes {
                Region::Both
            } else {
                Region::One((sent % 2) as usize)
            },
            gated: false,
        }
    }

    /// What to have read into the buffers of the units kept back, in order.
    pub fn requests(&self, stream: &Stream) -> (requests: Vec<Request>)
        requires
            stream.valid(),
            self.valid(*stream),
            stream.regions is Some,
        ensures
            requests@.len() == self.kept().len(),
            forall|sent: int|
                0 <= sent < requests@.len() ==> (#[trigger] requests@[sent]) == self.request(*stream, sent),
    {
        let mut requests: Vec<Request> = Vec::new();
        if let Some(regions) = &stream.regions {
            let count: usize = self.kept.len();
            for sent in 0..count
                invariant
                    count == self.kept@.len(),
                    stream.valid(),
                    self.valid(*stream),
                    stream.regions == Some(*regions),
                    requests@.len() == sent,
                    forall|k: int| 0 <= k < sent ==> (#[trigger] requests@[k]) == self.request(*stream, k),
            {
                let (index, buffer) = &self.kept[sent];
                proof {
                    assert(self.kept@[sent as int].0 == stream.give_up@[stream.give_up@.len() - 1 - sent]);
                    buffer.ends_at_an_address();
                }
                let region = if stream.units[*index].bytes > regions.bytes {
                    Region::Both
                } else {
                    Region::One(sent % 2)
                };
                requests.push(
                    Request { unit: *index, destination: buffer.pointer(), region, gated: false },
                );
            }
        }
        requests
    }

    /// How many units are kept back, as a line of text.
    pub fn line(&self, stream: &Stream) -> (line: String)
        ensures
            line@ == "keeping "@ + text::decimal(self.kept().len()) + " of "@ + text::decimal(stream.units@.len()) + " "@
                + stream.what@ + " on the device and reading the rest as they run"@,
    {
        let mut line = String::from_str("keeping ");
        text::push_size(&mut line, self.kept.len());
        line.append(" of ");
        text::push_size(&mut line, stream.units.len());
        line.append(" ");
        line.append(stream.what.as_str());
        line.append(" on the device and reading the rest as they run");
        line
    }
}

/// The places of `kept` with the units `back` in buffers of their own.
pub open spec fn kept_back(kept: Seq<Kept>, back: Seq<(usize, DeviceBuffer)>) -> Seq<Kept>
    decreases back.len(),
{
    if back.len() == 0 {
        kept
    } else {
        kept_back(kept, back.drop_last()).update(back.last().0 as int, Kept::Buffer(back.last().1))
    }
}

impl Stream {
    /// Whether what is kept back is to be settled before the next call.
    pub fn unsettled(&self) -> (unsettled: bool)
        ensures
            unsettled == (!self.settled && self.regions is Some),
    {
        !self.settled && self.reads()
    }

    /// Keeps back the units of `settling`, once they are in their buffers, and says where every
    /// unit's tensors are then.
    pub fn settle(&mut self, settling: Settling) -> (views: Vec<Placement>)
        requires
            old(self).placed(),
            old(self).regions is Some,
            settling.valid(*old(self)),
            forall|i: int| 0 <= i < old(self).kept@.len() ==> (#[trigger] old(self).kept@[i]) !is Buffer,
        ensures
            final(self).placed(),
            final(self).settled,
            final(self).units == old(self).units,
            final(self).what == old(self).what,
            final(self).give_up == old(self).give_up,
            final(self).sized_start == old(self).sized_start,
            final(self).sized_end == old(self).sized_end,
            ({
                let regions = old(self).regions->0;
                let bytes = regions.bytes as int;
                let back = kept_back(old(self).kept@, settling.kept());
                &&& final(self).regions == Some(Regions { holds: [None, None], ..regions })
                &&& final(self).kept@ == in_turn(old(self).units@, back, bytes)
                &&& views@ == placements(
                    old(self).units@,
                    in_turn(old(self).units@, back, bytes),
                    regions.device,
                    bytes,
                    old(self).units@.len() as int,
                )
            }),
    {
        let ghost list = settling.kept@;
        let ghost regions = self.regions->0;
        assert(list.take(0) =~= Seq::empty());
        assert forall|k: int| 0 <= k < list.len() implies {
            &&& (#[trigger] list[k]).0 < old(self).units@.len()
            &&& list[k].1.valid()
            &&& list[k].1.size() == old(self).units@[list[k].0 as int].bytes
        } by {
            assert(list[k].0 == old(self).give_up@[old(self).give_up@.len() - 1 - k]);
        }
        assert forall|i: int| 0 <= i < self.kept@.len() implies match #[trigger] self.kept@[i] {
            Kept::Tensors => true,
            Kept::Buffer(buffer) => buffer.valid() && buffer.size() == self.units@[i].bytes,
            Kept::Read(_) => self.units@[i].bytes <= 2 * regions.bytes,
        } by {
            assert(fits_in(self.kept@[i], self.units@[i].bytes as int, regions));
        }
        for kept in pairs: settling.kept
            invariant
                pairs.seq() == list,
                self.regions == old(self).regions,
                self.regions == Some(regions),
                self.units == old(self).units,
                self.what == old(self).what,
                self.give_up == old(self).give_up,
                self.sized_start == old(self).sized_start,
                self.sized_end == old(self).sized_end,
                self.kept@.len() == old(self).kept@.len(),
                old(self).kept@.len() == old(self).units@.len(),
                self.kept@ == kept_back(old(self).kept@, list.take(pairs.index() as int)),
                forall|k: int|
                    0 <= k < list.len() ==> {
                        &&& (#[trigger] list[k]).0 < old(self).units@.len()
                        &&& list[k].1.valid()
                        &&& list[k].1.size() == old(self).units@[list[k].0 as int].bytes
                    },
                forall|i: int|
                    0 <= i < self.kept@.len() ==> match #[trigger] self.kept@[i] {
                        Kept::Tensors => true,
                        Kept::Buffer(buffer) => buffer.valid() && buffer.size() == self.units@[i].bytes,
                        Kept::Read(_) => self.units@[i].bytes <= 2 * regions.bytes,
                    },
        {
            let ghost done = pairs.index() as int;
            let (index, buffer) = kept;
            assert(list[done] == (index, buffer));
            assert(list.take(done + 1).drop_last() =~= list.take(done));
            self.kept.set(index, Kept::Buffer(buffer));
        }
        assert(list.take(list.len() as int) =~= list);
        let views = self.assign();
        self.settled = true;
        views
    }
}

/// The units read on the way during one call, in the order it runs them.
pub struct Pass {
    pub queue: Vec<usize>,
    /// The first unit of the queue not asked for yet.
    pub next: usize,
    /// The unit each region is taken by, from when it is asked for until it has run.
    pub busy: [Option<usize>; 2],
    /// Units asked for whose answers have not come yet, oldest first.
    pub loading: VecDeque<usize>,
}

/// What a pass asks for next.
pub enum Asked {
    /// Nothing: every unit was asked for, or the regions of the next one are taken.
    Nothing,
    /// The next unit, which its regions still hold.
    Held(usize),
    /// The next unit, which is to be read.
    Load(Request),
}

/// What the kernels of a unit wait for.
pub enum Entering {
    /// The copies into these halves, which were all asked for and answered.
    Copies(Vec<usize>),
    /// The answer to the oldest request not yet answered.
    Answer,
}

/// `turns` with `value` in every half that `region` takes.
pub open spec fn with_region(turns: Seq<Option<usize>>, region: Region, value: Option<usize>) -> Seq<Option<usize>> {
    Seq::new(
        turns.len(),
        |half: int|
            if region.takes(half) {
                value
            } else {
                turns[half]
            },
    )
}

fn fill(turns: &mut [Option<usize>; 2], region: Region, value: Option<usize>)
    ensures
        final(turns)@ == with_region(old(turns)@, region, value),
{
    if region.has(0) {
        turns[0] = value;
    }
    if region.has(1) {
        turns[1] = value;
    }
    assert(turns@ =~= with_region(old(turns)@, region, value));
}

impl Pass {
    /// The queue holds units read on the way. A region is taken by a unit that goes there, and a
    /// unit being loaded has all its regions, which hold nothing until it is there.
    pub open spec fn valid(self, stream: Stream) -> bool {
        let count = stream.units@.len();
        &&& stream.placed()
        &&& self.queue@.len() > 0 ==> stream.regions is Some
        &&& forall|k: int|
            0 <= k < self.queue@.len() ==> (#[trigger] self.queue@[k]) < count && stream.reads_into(
                self.queue@[k] as int,
            ) is Some
        &&& self.next <= self.queue@.len()
        &&& forall|half: int|
            0 <= half < 2 ==> ((#[trigger] self.busy@[half]) matches Some(index) ==> {
                &&& index < count
                &&& stream.reads_into(index as int) matches Some(region) && region.takes(half)
                &&& stream.regions is Some
            })
        &&& forall|k: int|
            0 <= k < self.loading@.len() ==> {
                &&& (#[trigger] self.loading@[k]) < count
                &&& stream.reads_into(self.loading@[k] as int) matches Some(region) && forall|half: int|
                    0 <= half < 2 && region.takes(half) ==> (#[trigger] self.busy@[half]) == Some(self.loading@[k])
                        && stream.regions->0.holds@[half] is None
            }
        &&& self.loading@.no_duplicates()
    }

    /// No read failed: a region taken by a unit that is not being loaded holds that unit.
    pub open spec fn intact(self, stream: Stream) -> bool {
        forall|half: int|
            0 <= half < 2 ==> ((#[trigger] self.busy@[half]) matches Some(index) ==> self.loading@.contains(index)
                || stream.regions->0.holds@[half] == Some(index))
    }

    /// Whether `index` was asked for and has not run yet: all its regions are its.
    pub open spec fn running(self, stream: Stream, index: int) -> bool {
        stream.reads_into(index) matches Some(region) && forall|half: int|
            0 <= half < 2 && region.takes(half) ==> (#[trigger] self.busy@[half]) == Some(index as usize)
    }

    /// Whether nothing is on its way into the region of `index`.
    pub open spec fn arrived(self, stream: Stream, index: int) -> bool {
        stream.reads_into(index) matches Some(region) ==> forall|half: int|
            0 <= half < 2 && region.takes(half) ==> ((#[trigger] self.busy@[half]) matches Some(unit)
                ==> !self.loading@.contains(unit))
    }

    /// Whether the regions of the next unit of the queue are free.
    pub open spec fn clear(self, stream: Stream) -> bool {
        &&& self.next < self.queue@.len()
        &&& stream.reads_into(self.queue@[self.next as int] as int) matches Some(region) && forall|half: int|
            0 <= half < 2 && region.takes(half) ==> (#[trigger] self.busy@[half]) is None
    }

    /// A pass over `order`, the units one call runs in the order it runs them.
    pub fn new(stream: &Stream, order: &Vec<usize>) -> (pass: Pass)
        requires
            stream.placed(),
            forall|k: int| 0 <= k < order@.len() ==> (#[trigger] order@[k]) < stream.units@.len(),
            stream.regions is None ==> forall|k: int|
                0 <= k < order@.len() ==> stream.reads_into((#[trigger] order@[k]) as int) is None,
        ensures
            pass.valid(*stream),
            pass.intact(*stream),
            pass.queue@ == order@.filter(|index: usize| stream.reads_into(index as int) is Some),
            pass.next == 0,
            pass.loading@ == Seq::<usize>::empty(),
            pass.busy@ == seq![None::<usize>, None::<usize>],
    {
        let ghost wanted = |index: usize| stream.reads_into(index as int) is Some;
        let mut queue: Vec<usize> = Vec::new();
        let count: usize = order.len();
        assert(order@.take(0).filter(wanted) =~= Seq::empty());
        for place in 0..count
            invariant
                count == order@.len(),
                stream.placed(),
                wanted == (|index: usize| stream.reads_into(index as int) is Some),
                forall|k: int| 0 <= k < order@.len() ==> (#[trigger] order@[k]) < stream.units@.len(),
                stream.regions is None ==> forall|k: int|
                    0 <= k < order@.len() ==> stream.reads_into((#[trigger] order@[k]) as int) is None,
                queue@ == order@.take(place as int).filter(wanted),
                queue@.len() > 0 ==> stream.regions is Some,
                forall|k: int|
                    0 <= k < queue@.len() ==> (#[trigger] queue@[k]) < stream.units@.len() && stream.reads_into(
                        queue@[k] as int,
                    ) is Some,
        {
            let index: usize = order[place];
            proof {
                let longer = order@.take(place + 1);
                assert(longer.drop_last() =~= order@.take(place as int));
                reveal(Seq::filter);
            }
            if let Kept::Read(_) = &stream.kept[index] {
                queue.push(index);
            }
        }
        assert(order@.take(count as int) =~= order@);
        Pass { queue, next: 0, busy: [None, None], loading: VecDeque::new() }
    }

    /// Asks for the next unit of the queue, if its regions are free. A unit to be read is asked of
    /// the reading thread then, or taken back by `unsent` where that is gone.
    pub fn request(&mut self, stream: &mut Stream) -> (asked: Asked)
        requires
            old(self).valid(*old(stream)),
        ensures
            final(self).valid(*final(stream)),
            old(self).intact(*old(stream)) ==> final(self).intact(*final(stream)),
            final(self).queue == old(self).queue,
            final(stream).units == old(stream).units,
            final(stream).kept == old(stream).kept,
            final(stream).what == old(stream).what,
            final(stream).give_up == old(stream).give_up,
            final(stream).sized_start == old(stream).sized_start,
            final(stream).sized_end == old(stream).sized_end,
            final(stream).settled == old(stream).settled,
            asked is Nothing <==> !old(self).clear(*old(stream)),
            asked is Nothing ==> *final(self) == *old(self) && *final(stream) == *old(stream),
            asked !is Nothing ==> ({
                let index = old(self).queue@[old(self).next as int];
                let region = old(stream).reads_into(index as int)->0;
                let regions = old(stream).regions->0;
                &&& final(self).next == old(self).next + 1
                &&& final(self).busy@ == with_region(old(self).busy@, region, Some(index))
                &&& asked is Held <==> forall|half: int|
                    0 <= half < 2 && region.takes(half) ==> (#[trigger] regions.holds@[half]) == Some(index)
                &&& asked matches Asked::Held(held) ==> {
                    &&& held == index
                    &&& final(self).loading@ == old(self).loading@
                    &&& *final(stream) == *old(stream)
                }
                &&& asked matches Asked::Load(request) ==> {
                    &&& request.unit == index
                    &&& request.destination == regions.device.at() + region.start(regions.bytes as int)
                    &&& request.region == region
                    &&& request.gated
                    &&& final(self).loading@ == old(self).loading@.push(index)
                    &&& final(stream).regions matches Some(after)
                    &&& after.bytes == regions.bytes
                    &&& after.device == regions.device
                    &&& after.files == regions.files
                    &&& after.holds@ == with_region(regions.holds@, region, None)
                }
            }),
    {
        if self.next >= self.queue.len() {
            return Asked::Nothing;
        }
        let index: usize = self.queue[self.next];
        let region: Region = match &stream.kept[index] {
            Kept::Read(region) => *region,
            _ => {
                assert(false);
                return Asked::Nothing;
            },
        };
        if region.has(0) && self.busy[0].is_some() {
            assert(self.busy@[0] is Some);
            return Asked::Nothing;
        }
        if region.has(1) && self.busy[1].is_some() {
            assert(self.busy@[1] is Some);
            return Asked::Nothing;
        }
        assert(self.clear(*stream));
        assert(!self.loading@.contains(index)) by {
            if self.loading@.contains(index) {
                let k = choose|k: int| 0 <= k < self.loading@.len() && self.loading@[k] == index;
                assert(self.loading@[k] == index);
                if region.takes(0) {
                    assert(self.busy@[0] == Some(index));
                } else {
                    assert(self.busy@[1] == Some(index));
                }
            }
        }
        self.next = self.next + 1;
        fill(&mut self.busy, region, Some(index));
        let mut request: Option<Request> = None;
        match stream.regions.take() {
            None => {},
            Some(mut regions) => {
                let ghost before = regions;
                let zero = !region.has(0) || regions.holds[0] == Some(index);
                let one = !region.has(1) || regions.holds[1] == Some(index);
                if !(zero && one) {
                    fill(&mut regions.holds, region, None);
                    proof {
                        regions.device.ends_at_an_address();
                        one_region_fits(region, regions.bytes as int);
                        assert(fits_in(stream.kept@[index as int], stream.units@[index as int].bytes as int, before));
                    }
                    request =
                    Some(
                        Request {
                            unit: index,
                            destination: regions.device.pointer_at(region.offset(regions.bytes)),
                            region,
                            gated: true,
                        },
                    );
                    self.loading.push_back(index);
                }
                stream.regions = Some(regions);
            },
        }
        proof {
            assert(old(self).loading@ =~= self.loading@ || self.loading@ =~= old(self).loading@.push(index));
            assert forall|k: int| 0 <= k < self.loading@.len() implies {
                &&& (#[trigger] self.loading@[k]) < stream.units@.len()
                &&& stream.reads_into(self.loading@[k] as int) matches Some(taken) && forall|half: int|
                    0 <= half < 2 && taken.takes(half) ==> (#[trigger] self.busy@[half]) == Some(self.loading@[k])
                        && stream.regions->0.holds@[half] is None
            } by {
                if k < old(self).loading@.len() {
                    assert(old(self).loading@[k] == self.loading@[k]);
                    let taken = stream.reads_into(self.loading@[k] as int)->0;
                    assert forall|half: int| 0 <= half < 2 && taken.takes(half) implies (
                    #[trigger] self.busy@[half]) == Some(self.loading@[k])
                        && stream.regions->0.holds@[half] is None by {
                        assert(old(self).busy@[half] == Some(self.loading@[k]));
                    }
                }
            }
            assert(old(self).intact(*old(stream)) ==> self.intact(*stream)) by {
                if old(self).intact(*old(stream)) {
                    assert forall|half: int| 0 <= half < 2 implies ((#[trigger] self.busy@[half]) matches Some(other)
                        ==> self.loading@.contains(other) || stream.regions->0.holds@[half] == Some(other)) by {
                        assert(old(self).busy@[half] matches Some(other) ==> old(self).loading@.contains(other) || old(
                            stream,
                        ).regions->0.holds@[half] == Some(other));
                        if self.busy@[half] is Some {
                            let other = self.busy@[half]->0;
                            if region.takes(half) {
                                if request is Some {
                                    assert(self.loading@[old(self).loading@.len() as int] == index);
                                }
                            } else if old(self).loading@.contains(other) {
                                let k = choose|k: int| 0 <= k < old(self).loading@.len() && old(self).loading@[k] == other;
                                assert(self.loading@[k] == other);
                            }
                        }
                    }
                }
            }
        }
        match request {
            Some(request) => Asked::Load(request),
            None => Asked::Held(index),
        }
    }

    /// Takes back the unit last asked for, which the reading thread was no longer there to read.
    pub fn unsent(&mut self, stream: &Stream)
        requires
            old(self).valid(*stream),
            old(self).loading@.len() > 0,
        ensures
            final(self).valid(*stream),
            final(self).loading@ == old(self).loading@.drop_last(),
            final(self).queue == old(self).queue,
            final(self).next == old(self).next,
            final(self).busy == old(self).busy,
    {
        let _ = self.loading.pop_back();
        proof {
            assert(self.loading@ =~= old(self).loading@.drop_last());
            assert forall|k: int| 0 <= k < self.loading@.len() implies (#[trigger] self.loading@[k]) == old(
                self,
            ).loading@[k] by {}
        }
    }

    /// What `index`'s kernels wait for before they are launched, so that its weights are where its
    /// tensors point. An answer is handed to `answered`, and `index` entered again.
    pub fn enter(&self, stream: &Stream, index: usize) -> (entering: Entering)
        requires
            self.valid(*stream),
            index < stream.units@.len(),
            stream.reads_into(index as int) is Some ==> self.busy@.contains(Some(index)),
        ensures
            match stream.reads_into(index as int) {
                None => entering matches Entering::Copies(halves) && halves@ == Seq::<usize>::empty(),
                Some(region) => if self.loading@.contains(index) {
                    entering is Answer
                } else {
                    entering matches Entering::Copies(halves) && halves@ == region.half_list()
                },
            },
    {
        match &stream.kept[index] {
            Kept::Read(region) => {
                let count: usize = self.loading.len();
                for place in 0..count
                    invariant
                        count == self.loading@.len(),
                        index < stream.kept@.len(),
                        stream.kept@[index as int] == Kept::Read(*region),
                        forall|k: int| 0 <= k < place ==> (#[trigger] self.loading@[k]) != index,
                {
                    if self.loading[place] == index {
                        assert(self.loading@[place as int] == index);
                        return Entering::Answer;
                    }
                }
                Entering::Copies((*region).halves())
            },
            _ => Entering::Copies(Vec::new()),
        }
    }

    /// Whether answers are still owed, which a pass that ends waits for, so that the next pass reads
    /// only its own.
    pub fn owed(&self) -> (owed: bool)
        ensures
            owed == (self.loading@.len() > 0),
    {
        self.loading.len() > 0
    }

    /// Takes the answer to the oldest request not yet answered: whether the unit came. A unit whose
    /// read failed is held by no region.
    pub fn answered(&mut self, stream: &mut Stream, came: bool)
        requires
            old(self).valid(*old(stream)),
            old(self).loading@.len() > 0,
        ensures
            final(self).valid(*final(stream)),
            came && old(self).intact(*old(stream)) ==> final(self).intact(*final(stream)),
            final(self).queue == old(self).queue,
            final(self).next == old(self).next,
            final(self).busy == old(self).busy,
            final(self).loading@ == old(self).loading@.drop_first(),
            final(stream).units == old(stream).units,
            final(stream).kept == old(stream).kept,
            final(stream).what == old(stream).what,
            final(stream).give_up == old(stream).give_up,
            final(stream).sized_start == old(stream).sized_start,
            final(stream).sized_end == old(stream).sized_end,
            final(stream).settled == old(stream).settled,
            ({
                let index = old(self).loading@[0];
                let region = old(stream).reads_into(index as int)->0;
                let before = old(stream).regions->0;
                &&& final(stream).regions matches Some(after)
                &&& after.bytes == before.bytes
                &&& after.device == before.device
                &&& after.files == before.files
                &&& after.holds@ == with_region(
                    before.holds@,
                    region,
                    if came {
                        Some(index)
                    } else {
                        None
                    },
                )
            }),
    {
        let ghost first = self.loading@[0];
        assert(first < stream.units@.len());
        proof {
            let region = stream.reads_into(first as int)->0;
            if region.takes(0) {
                assert(self.busy@[0] == Some(first));
            } else {
                assert(self.busy@[1] == Some(first));
            }
        }
        if let Some(index) = self.loading.pop_front() {
            assert(self.loading@ =~= old(self).loading@.drop_first());
            let region: Region = match &stream.kept[index] {
                Kept::Read(region) => *region,
                _ => Region::Both,
            };
            if let Some(mut regions) = stream.regions.take() {
                let held: Option<usize> = if came {
                    Some(index)
                } else {
                    None
                };
                fill(&mut regions.holds, region, held);
                stream.regions = Some(regions);
            }
            proof {
                assert forall|k: int| 0 <= k < self.loading@.len() implies {
                    &&& (#[trigger] self.loading@[k]) < stream.units@.len()
                    &&& stream.reads_into(self.loading@[k] as int) matches Some(taken) && forall|half: int|
                        0 <= half < 2 && taken.takes(half) ==> (#[trigger] self.busy@[half]) == Some(self.loading@[k])
                            && stream.regions->0.holds@[half] is None
                } by {
                    assert(old(self).loading@[k + 1] == self.loading@[k]);
                    assert(old(self).loading@[k + 1] != old(self).loading@[0]);
                    let taken = stream.reads_into(self.loading@[k] as int)->0;
                    assert forall|half: int| 0 <= half < 2 && taken.takes(half) implies (
                    #[trigger] self.busy@[half]) == Some(self.loading@[k])
                        && stream.regions->0.holds@[half] is None by {
                        assert(old(self).busy@[half] == Some(self.loading@[k]));
                        assert(!region.takes(half));
                    }
                }
                assert(self.loading@.no_duplicates()) by {
                    assert forall|k: int, l: int| 0 <= k < l < self.loading@.len() implies self.loading@[k]
                        != self.loading@[l] by {
                        assert(old(self).loading@[k + 1] != old(self).loading@[l + 1]);
                    }
                }
                if came && old(self).intact(*old(stream)) {
                    assert forall|half: int| 0 <= half < 2 implies ((#[trigger] self.busy@[half]) matches Some(other)
                        ==> self.loading@.contains(other) || stream.regions->0.holds@[half] == Some(other)) by {
                        assert(old(self).busy@[half] matches Some(other) ==> old(self).loading@.contains(other) || old(
                            stream,
                        ).regions->0.holds@[half] == Some(other));
                        if self.busy@[half] is Some {
                            let other = self.busy@[half]->0;
                            if region.takes(half) {
                                assert(self.busy@[half] == Some(index));
                            } else if old(self).loading@.contains(other) {
                                let k = choose|k: int| 0 <= k < old(self).loading@.len() && old(self).loading@[k] == other;
                                if k == 0 {
                                    assert(stream.reads_into(other as int) == Some(region));
                                    assert(false);
                                }
                                assert(self.loading@[k - 1] == other);
                            }
                        }
                    }
                }
            }
        }
    }

    /// Frees `index`'s region for the unit after it. What comes back are the halves that are free once the kernels
    /// launched so far are done, which an event is recorded for, before `request` asks for what goes there. Of a unit
    /// that is not read on the way, nothing.
    pub fn leave(&mut self, stream: &Stream, index: usize) -> (freed: Option<Vec<usize>>)
        requires
            old(self).valid(*stream),
            index < stream.units@.len(),
            old(self).arrived(*stream, index as int),
        ensures
            final(self).valid(*stream),
            old(self).intact(*stream) ==> final(self).intact(*stream),
            match stream.reads_into(index as int) {
                None => freed is None && *final(self) == *old(self),
                Some(region) => {
                    &&& freed matches Some(halves) && halves@ == region.half_list()
                    &&& final(self).busy@ == with_region(old(self).busy@, region, None)
                },
            },
            final(self).queue == old(self).queue,
            final(self).next == old(self).next,
            final(self).loading == old(self).loading,
    {
        let region: Region = match &stream.kept[index] {
            Kept::Read(region) => *region,
            _ => {
                return None;
            },
        };
        fill(&mut self.busy, region, None);
        proof {
            assert forall|k: int| 0 <= k < self.loading@.len() implies {
                &&& (#[trigger] self.loading@[k]) < stream.units@.len()
                &&& stream.reads_into(self.loading@[k] as int) matches Some(taken) && forall|other: int|
                    0 <= other < 2 && taken.takes(other) ==> (#[trigger] self.busy@[other]) == Some(self.loading@[k])
                        && stream.regions->0.holds@[other] is None
            } by {
                assert(old(self).loading@[k] == self.loading@[k]);
                let taken = stream.reads_into(self.loading@[k] as int)->0;
                assert forall|other: int| 0 <= other < 2 && taken.takes(other) implies (
                #[trigger] self.busy@[other]) == Some(self.loading@[k]) && stream.regions->0.holds@[other] is None by {
                    assert(old(self).busy@[other] == Some(self.loading@[k]));
                    assert(old(self).loading@.contains(self.loading@[k]));
                }
            }
            assert forall|other: int| 0 <= other < 2 implies ((#[trigger] self.busy@[other]) matches Some(unit) ==> {
                &&& unit < stream.units@.len()
                &&& stream.reads_into(unit as int) matches Some(taken) && taken.takes(other)
                &&& stream.regions is Some
            }) by {
                assert(old(self).busy@[other] == self.busy@[other] || region.takes(other));
            }
            if old(self).intact(*stream) {
                assert forall|other: int| 0 <= other < 2 implies ((#[trigger] self.busy@[other]) matches Some(unit)
                    ==> self.loading@.contains(unit) || stream.regions->0.holds@[other] == Some(unit)) by {
                    assert(old(self).busy@[other] == self.busy@[other] || region.takes(other));
                }
            }
        }
        Some(region.halves())
    }

    /// Whether nothing is on its way into the region of `index`, so that it may be left.
    pub fn has_arrived(&self, stream: &Stream, index: usize) -> (answer: bool)
        requires
            self.valid(*stream),
            index < stream.units@.len(),
        ensures
            answer == self.arrived(*stream, index as int),
    {
        let region: Region = match &stream.kept[index] {
            Kept::Read(region) => *region,
            _ => {
                return true;
            },
        };
        let count: usize = self.loading.len();
        for place in 0..count
            invariant
                count == self.loading@.len(),
                self.valid(*stream),
                index < stream.units@.len(),
                stream.reads_into(index as int) == Some(region),
                forall|k: int, half: int|
                    0 <= k < place && 0 <= half < 2 && region.takes(half) ==> (#[trigger] self.busy@[half]) != Some(
                        #[trigger] self.loading@[k],
                    ),
        {
            let unit: usize = self.loading[place];
            let halves: Vec<usize> = region.halves();
            for number in 0..halves.len()
                invariant
                    halves@ == region.half_list(),
                    place < self.loading@.len(),
                    unit == self.loading@[place as int],
                    stream.reads_into(index as int) == Some(region),
                    forall|j: int| 0 <= j < number ==> self.busy@[(#[trigger] halves@[j]) as int] != Some(unit),
            {
                let half: usize = halves[number];
                if let Some(taken) = self.busy[half] {
                    if taken == unit {
                        proof {
                            assert(region.takes(half as int));
                            assert(self.loading@.contains(unit));
                            assert(self.busy@[half as int] == Some(unit));
                        }
                        return false;
                    }
                }
            }
            proof {
                assert forall|half: int| 0 <= half < 2 && region.takes(half) implies (#[trigger] self.busy@[half])
                    != Some(unit) by {
                    if half == 0 || region !is Both {
                        assert(halves@[0] == half);
                    } else {
                        assert(halves@[1] == half);
                    }
                }
            }
        }
        proof {
            assert forall|half: int| 0 <= half < 2 && region.takes(half) implies ((#[trigger] self.busy@[half]) matches Some(
                unit,
            ) ==> !self.loading@.contains(unit)) by {
                if let Some(unit) = self.busy@[half] {
                    if self.loading@.contains(unit) {
                        let k = choose|k: int| 0 <= k < self.loading@.len() && self.loading@[k] == unit;
                        assert(self.busy@[half] != Some(self.loading@[k]));
                    }
                }
            }
        }
        true
    }
}

/// A unit that was asked for, and whose answer came, is where its tensors point: every region it
/// takes holds it, as long as no read of the pass failed.
pub proof fn an_entered_unit_is_there(pass: Pass, stream: Stream, index: int, half: int)
    requires
        pass.valid(stream),
        pass.intact(stream),
        0 <= index <= usize::MAX,
        pass.running(stream, index),
        !pass.loading@.contains(index as usize),
        0 <= half < 2,
        stream.reads_into(index)->0.takes(half),
    ensures
        stream.regions matches Some(regions) && regions.holds@[half] == Some(index as usize),
{
    assert(pass.busy@[half] == Some(index as usize));
}

/// Two units of a pass are never in one region at a time: a region that a running unit takes is
/// taken by no other.
pub proof fn a_region_is_taken_by_one_unit(pass: Pass, stream: Stream, first: int, second: int, half: int)
    requires
        pass.valid(stream),
        0 <= first <= usize::MAX,
        0 <= second <= usize::MAX,
        pass.running(stream, first),
        pass.running(stream, second),
        0 <= half < 2,
        stream.reads_into(first)->0.takes(half),
        stream.reads_into(second)->0.takes(half),
    ensures
        first == second,
{
    assert(pass.busy@[half] == Some(first as usize));
    assert(pass.busy@[half] == Some(second as usize));
}

} // verus!
