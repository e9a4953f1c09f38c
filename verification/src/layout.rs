//! Arrays of three axes, and their values in another order of the axes.
use crate::arithmetic;
use vstd::prelude::*;

verus! {

/// The sides of an array, the last of which moves fastest.
#[derive(Clone, Copy, Debug, PartialEq, Eq, Structural)]
pub struct Sides {
    pub outer: usize,
    pub middle: usize,
    pub inner: usize,
}

impl Sides {
    pub open spec fn count(self) -> int {
        self.outer * self.middle * self.inner
    }

    /// Whether the axes hold this place.
    pub open spec fn holds(self, outer: int, middle: int, inner: int) -> bool {
        &&& 0 <= outer < self.outer
        &&& 0 <= middle < self.middle
        &&& 0 <= inner < self.inner
    }

    /// Where a value is.
    pub open spec fn place(self, outer: int, middle: int, inner: int) -> int {
        (outer * self.middle + middle) * self.inner + inner
    }
}

/// A place is one of the array.
pub proof fn a_place_is_inside(sides: Sides, outer: int, middle: int, inner: int)
    requires
        sides.holds(outer, middle, inner),
    ensures
        0 <= outer * sides.middle + middle < sides.outer * sides.middle,
        0 <= sides.place(outer, middle, inner) < sides.count(),
{
    arithmetic::nested_is_inside(outer, sides.outer as int, middle, sides.middle as int);
    arithmetic::nested_is_inside(
        outer * sides.middle + middle,
        sides.outer * sides.middle,
        inner,
        sides.inner as int,
    );
}

/// Every place of the array is that of one value.
pub proof fn a_place_has_a_value(sides: Sides, place: int) -> (value: (int, int, int))
    requires
        0 <= place < sides.count(),
    ensures
        sides.holds(value.0, value.1, value.2),
        sides.place(value.0, value.1, value.2) == place,
{
    let (rows, wide, middle) = (sides.outer * sides.middle, sides.inner as int, sides.middle as int);
    assert(wide > 0 && rows > 0) by (nonlinear_arith)
        requires
            rows * wide > 0,
            wide >= 0,
            sides.outer >= 0,
            middle >= 0,
            rows == sides.outer * middle,
    ;
    assert(middle > 0) by (nonlinear_arith)
        requires
            sides.outer * middle > 0,
            sides.outer >= 0,
            middle >= 0,
    ;
    let row = place / wide;
    arithmetic::quotient_is_inside(place, rows, wide);
    arithmetic::quotient_is_inside(row, sides.outer as int, middle);
    vstd::arithmetic::div_mod::lemma_fundamental_div_mod(place, wide);
    vstd::arithmetic::div_mod::lemma_fundamental_div_mod(row, middle);
    assert(row == (row / middle) * middle + row % middle) by (nonlinear_arith)
        requires
            row == middle * (row / middle) + row % middle,
    ;
    assert(place == row * wide + place % wide) by (nonlinear_arith)
        requires
            place == wide * row + place % wide,
    ;
    (row / middle, row % middle, place % wide)
}

/// How far apart the values of an array are that follow each other along its axes.
#[derive(Clone, Copy, Debug, PartialEq, Eq, Structural)]
pub struct Strides {
    pub outer: usize,
    pub middle: usize,
    pub inner: usize,
}

impl Strides {
    pub open spec fn place(self, outer: int, middle: int, inner: int) -> int {
        outer * self.outer + middle * self.middle + inner * self.inner
    }
}

/// Whether every value is one of the first `length`.
pub open spec fn reaches(sides: Sides, strides: Strides, length: int) -> bool {
    forall|x: int, y: int, z: int|
        #![trigger strides.place(x, y, z)]
        sides.holds(x, y, z) ==> strides.place(x, y, z) < length
}

/// The values of an array that lie `strides` apart, in the order of `sides`.
pub fn gathered<T: Copy>(data: &Vec<T>, sides: Sides, strides: Strides) -> (values: Vec<T>)
    requires
        sides.count() <= usize::MAX,
        reaches(sides, strides, data@.len() as int),
    ensures
        values@.len() == sides.count(),
        forall|x: int, y: int, z: int|
            #![trigger sides.place(x, y, z)]
            sides.holds(x, y, z) ==> values@[sides.place(x, y, z)] == data@[strides.place(x, y, z)],
{
    let mut values: Vec<T> = Vec::new();
    let length: usize = data.len();
    let ghost wide = sides.inner as int;
    assert(0 * sides.middle * sides.inner == 0) by (nonlinear_arith);
    for outer in 0..sides.outer
        invariant
            wide == sides.inner,
            length == data@.len(),
            sides.count() <= usize::MAX,
            reaches(sides, strides, length as int),
            values@.len() == outer * sides.middle * sides.inner,
            forall|x: int, y: int, z: int|
                #![trigger sides.place(x, y, z)]
                sides.holds(x, y, z) && x < outer ==> values@[sides.place(x, y, z)] == data@[strides.place(x, y, z)],
    {
        for middle in 0..sides.middle
            invariant
                wide == sides.inner,
                outer < sides.outer,
                length == data@.len(),
                sides.count() <= usize::MAX,
                reaches(sides, strides, length as int),
                values@.len() == (outer * sides.middle + middle) * sides.inner,
                forall|x: int, y: int, z: int|
                    #![trigger sides.place(x, y, z)]
                    sides.holds(x, y, z) && (x < outer || (x == outer && y < middle)) ==> values@[sides.place(x, y, z)]
                        == data@[strides.place(x, y, z)],
        {
            for inner in 0..sides.inner
                invariant
                    wide == sides.inner,
                    outer < sides.outer,
                    middle < sides.middle,
                    length == data@.len(),
                    sides.count() <= usize::MAX,
                    reaches(sides, strides, length as int),
                    values@.len() == (outer * sides.middle + middle) * sides.inner + inner,
                    forall|x: int, y: int, z: int|
                        #![trigger sides.place(x, y, z)]
                        sides.holds(x, y, z) && (x < outer || (x == outer && (y < middle || (y == middle && z < inner))))
                            ==> values@[sides.place(x, y, z)] == data@[strides.place(x, y, z)],
            {
                let ghost before = values@;
                proof {
                    assert(sides.holds(outer as int, middle as int, inner as int));
                    assert(strides.place(outer as int, middle as int, inner as int) < length);
                    pieces_are_less(strides, outer as int, middle as int, inner as int);
                }
                let place: usize = outer * strides.outer + middle * strides.middle + inner * strides.inner;
                values.push(data[place]);
                proof {
                    assert forall|x: int, y: int, z: int|
                        #![trigger sides.place(x, y, z)]
                        sides.holds(x, y, z) && (x < outer || (x == outer && (y < middle || (y == middle && z < inner
                            + 1)))) implies values@[sides.place(x, y, z)] == data@[strides.place(x, y, z)] by {
                        if !(x == outer && y == middle && z == inner) {
                            an_earlier_place_is_less(sides, x, y, z, outer as int, middle as int, inner as int);
                            a_place_is_inside(sides, x, y, z);
                            assert(values@[sides.place(x, y, z)] == before[sides.place(x, y, z)]);
                        }
                    }
                }
            }
            assert((outer * sides.middle + middle) * wide + wide == (outer * sides.middle + middle + 1) * wide)
                by (nonlinear_arith);
        }
        assert((outer * sides.middle + sides.middle) * wide == (outer + 1) * sides.middle * wide) by (nonlinear_arith);
    }
    values
}

proof fn pieces_are_less(strides: Strides, outer: int, middle: int, inner: int)
    requires
        0 <= outer,
        0 <= middle,
        0 <= inner,
    ensures
        0 <= outer * strides.outer <= strides.place(outer, middle, inner),
        0 <= middle * strides.middle <= strides.place(outer, middle, inner),
        0 <= inner * strides.inner <= strides.place(outer, middle, inner),
        outer * strides.outer + middle * strides.middle <= strides.place(outer, middle, inner),
{
    assert(0 <= outer * strides.outer) by (nonlinear_arith)
        requires
            outer >= 0,
            strides.outer >= 0,
    ;
    assert(0 <= middle * strides.middle) by (nonlinear_arith)
        requires
            middle >= 0,
            strides.middle >= 0,
    ;
    assert(0 <= inner * strides.inner) by (nonlinear_arith)
        requires
            inner >= 0,
            strides.inner >= 0,
    ;
}

/// Places follow the order of the axes.
proof fn an_earlier_place_is_less(sides: Sides, x: int, y: int, z: int, outer: int, middle: int, inner: int)
    requires
        sides.holds(x, y, z),
        sides.holds(outer, middle, inner),
        x < outer || (x == outer && (y < middle || (y == middle && z < inner))),
    ensures
        sides.place(x, y, z) < sides.place(outer, middle, inner),
{
    let (wide, tall) = (sides.inner as int, sides.middle as int);
    let (one, other) = (x * tall + y, outer * tall + middle);
    if x < outer {
        assert(x * tall + y < outer * tall) by (nonlinear_arith)
            requires
                x + 1 <= outer,
                y < tall,
                tall >= 0,
        ;
    }
    if one < other {
        assert(one * wide + z < other * wide + inner) by (nonlinear_arith)
            requires
                one + 1 <= other,
                z < wide,
                0 <= inner,
                wide >= 0,
        ;
    }
}

/// Different values have different places.
pub proof fn places_tell_apart(sides: Sides, x: int, y: int, z: int, outer: int, middle: int, inner: int)
    requires
        sides.holds(x, y, z),
        sides.holds(outer, middle, inner),
        sides.place(x, y, z) == sides.place(outer, middle, inner),
    ensures
        x == outer && y == middle && z == inner,
{
    if x < outer || (x == outer && (y < middle || (y == middle && z < inner))) {
        an_earlier_place_is_less(sides, x, y, z, outer, middle, inner);
    } else if !(x == outer && y == middle && z == inner) {
        an_earlier_place_is_less(sides, outer, middle, inner, x, y, z);
    }
}

/// Whether `values` are those of an array `[channels, sequences, frames]` as `[sequences, frames, channels]`.
pub open spec fn is_time_major<T>(
    data: Seq<T>,
    values: Seq<T>,
    channels: usize,
    sequences: usize,
    frames: usize,
) -> bool {
    let (from, to) = (
        Sides { outer: channels, middle: sequences, inner: frames },
        Sides { outer: sequences, middle: frames, inner: channels },
    );
    &&& values.len() == to.count()
    &&& forall|channel: int, sequence: int, frame: int|
        #![trigger from.place(channel, sequence, frame)]
        #![trigger to.place(sequence, frame, channel)]
        from.holds(channel, sequence, frame) ==> values[to.place(sequence, frame, channel)] == data[from.place(
            channel,
            sequence,
            frame,
        )]
}

/// The counts of an array do not depend on the order of its sides.
proof fn counts_turn(one: usize, two: usize, three: usize)
    ensures
        (Sides { outer: one, middle: two, inner: three }).count() == (Sides { outer: two, middle: three, inner: one })
            .count(),
{
    assert(one * two * three == two * three * one) by (nonlinear_arith);
}

/// An array `[channels, sequences, frames]` as `[sequences, frames, channels]`.
pub fn time_major<T: Copy>(data: &Vec<T>, channels: usize, sequences: usize, frames: usize) -> (values: Vec<T>)
    requires
        data@.len() == channels * sequences * frames,
        sequences * frames <= usize::MAX,
    ensures
        is_time_major(data@, values@, channels, sequences, frames),
{
    let sides = Sides { outer: sequences, middle: frames, inner: channels };
    let strides = Strides { outer: frames, middle: 1, inner: sequences * frames };
    let ghost from = Sides { outer: channels, middle: sequences, inner: frames };
    let length: usize = data.len();
    proof {
        counts_turn(channels, sequences, frames);
        assert forall|x: int, y: int, z: int|
            #![trigger strides.place(x, y, z)]
            sides.holds(x, y, z) implies strides.place(x, y, z) < length by {
            a_time_major_place(channels, sequences, frames, z, x, y);
            a_place_is_inside(from, z, x, y);
        }
    }
    let values = gathered(data, sides, strides);
    proof {
        assert forall|channel: int, sequence: int, frame: int|
            #![trigger from.place(channel, sequence, frame)]
            #![trigger sides.place(sequence, frame, channel)]
            from.holds(channel, sequence, frame) implies values@[sides.place(sequence, frame, channel)]
            == data@[from.place(channel, sequence, frame)] by {
            assert(sides.holds(sequence, frame, channel));
            a_time_major_place(channels, sequences, frames, channel, sequence, frame);
        }
    }
    values
}

proof fn a_time_major_place(
    channels: usize,
    sequences: usize,
    frames: usize,
    channel: int,
    sequence: int,
    frame: int,
)
    requires
        sequences * frames <= usize::MAX,
    ensures
        (Strides { outer: frames, middle: 1, inner: (sequences * frames) as usize }).place(sequence, frame, channel)
            == (Sides { outer: channels, middle: sequences, inner: frames }).place(channel, sequence, frame),
{
    assert(sequence * frames + frame * 1 + channel * (sequences * frames) == (channel * sequences + sequence) * frames
        + frame) by (nonlinear_arith);
}

/// An array `[sequences, frames, channels]` as `[channels, sequences, frames]`.
pub fn channel_major<T: Copy>(data: &Vec<T>, channels: usize, sequences: usize, frames: usize) -> (values: Vec<T>)
    requires
        data@.len() == sequences * frames * channels,
        frames * channels <= usize::MAX,
    ensures
        values@.len() == data@.len(),
        is_time_major(values@, data@, channels, sequences, frames),
{
    let sides = Sides { outer: channels, middle: sequences, inner: frames };
    let strides = Strides { outer: 1, middle: frames * channels, inner: channels };
    let ghost from = Sides { outer: sequences, middle: frames, inner: channels };
    let length: usize = data.len();
    proof {
        counts_turn(channels, sequences, frames);
        assert forall|x: int, y: int, z: int|
            #![trigger strides.place(x, y, z)]
            sides.holds(x, y, z) implies strides.place(x, y, z) < length by {
            a_channel_major_place(channels, sequences, frames, x, y, z);
            a_place_is_inside(from, y, z, x);
        }
    }
    let values = gathered(data, sides, strides);
    proof {
        assert forall|channel: int, sequence: int, frame: int|
            #![trigger sides.place(channel, sequence, frame)]
            #![trigger from.place(sequence, frame, channel)]
            sides.holds(channel, sequence, frame) implies data@[from.place(sequence, frame, channel)]
            == values@[sides.place(channel, sequence, frame)] by {
            a_channel_major_place(channels, sequences, frames, channel, sequence, frame);
        }
    }
    values
}

proof fn a_channel_major_place(
    channels: usize,
    sequences: usize,
    frames: usize,
    channel: int,
    sequence: int,
    frame: int,
)
    requires
        frames * channels <= usize::MAX,
    ensures
        (Strides { outer: 1, middle: (frames * channels) as usize, inner: channels }).place(channel, sequence, frame)
            == (Sides { outer: sequences, middle: frames, inner: channels }).place(sequence, frame, channel),
{
    assert(channel * 1 + sequence * (frames * channels) + frame * channels == (sequence * frames + frame) * channels
        + channel) by (nonlinear_arith);
}

/// What is put in time-major order and back is as it was.
pub proof fn channel_major_undoes_time_major<T>(
    data: Seq<T>,
    turned: Seq<T>,
    back: Seq<T>,
    channels: usize,
    sequences: usize,
    frames: usize,
)
    requires
        data.len() == channels * sequences * frames,
        back.len() == data.len(),
        is_time_major(data, turned, channels, sequences, frames),
        is_time_major(back, turned, channels, sequences, frames),
    ensures
        back == data,
{
    let sides = Sides { outer: channels, middle: sequences, inner: frames };
    let to = Sides { outer: sequences, middle: frames, inner: channels };
    assert forall|i: int| 0 <= i < data.len() implies back[i] == data[i] by {
        let (channel, sequence, frame) = a_place_has_a_value(sides, i);
        let place = to.place(sequence, frame, channel);
        assert(sides.holds(channel, sequence, frame));
        assert(turned[place] == data[sides.place(channel, sequence, frame)]);
        assert(turned[place] == back[sides.place(channel, sequence, frame)]);
    }
    assert(back =~= data);
}

} // verus!
