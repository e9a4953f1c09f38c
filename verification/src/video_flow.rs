//! What the launches of a tile compute: the activations of the video encoder as values, and the encoder as a formula.
use crate::tile::Slots;
use crate::value::Value;
use crate::video_encoder;
use crate::video_encoder::{Activation, Convolution, CudaVideoEncoder, Level, ResnetBlock, VideoStep, Which};
use vstd::prelude::*;

verus! {

/// The operations of the encoder's kernels.
#[allow(inconsistent_fields)]
pub enum VideoOp {
    /// SiLU(GroupNorm(x)) in front of a convolution.
    GroupNorm { which: Which, input: Activation },
    Statistics { which: Which, input: Activation },
    /// The columns of some rows of a convolution.
    Columns { which: Which, input: Activation, stride: usize, time_stride: usize, first: int, count: int },
    /// The first so many rows of a convolution.
    Convolved { which: Which, input: Activation, stride: usize, time_stride: usize, rows: int },
    /// So many rows through a 1 × 1 convolution.
    Pointwise { which: Which, rows: int },
}

/// What an activation holds.
pub type Held = Value<VideoOp>;

/// What a tile holds, and the scratch buffers of its convolutions.
pub struct Tile {
    pub slots: Slots<Held>,
    pub columns: Held,
    pub statistics: Held,
}

/// A value on top of another where a convolution accumulates.
pub open spec fn onto(accumulate: bool, output: Held, value: Held) -> Held {
    if accumulate {
        output.plus(value)
    } else {
        value
    }
}

/// What the product of a slice's columns leaves: one more slice of rows, where the rows before them are there.
pub open spec fn sliced(
    which: Which,
    columns: Held,
    output: Held,
    first: usize,
    count: usize,
    accumulate: bool,
) -> Held {
    match columns {
        Value::Made(VideoOp::Columns { which: of, input, stride, time_stride, first: from, count: rows }, values) => {
            let rows_to = |rows: int|
                Value::Made(VideoOp::Convolved { which, input, stride, time_stride, rows }, values);
            if of != which || from != first || rows != count {
                Value::Unset
            } else if first == 0 {
                onto(accumulate, output, rows_to(count as int))
            } else if accumulate {
                match output {
                    Value::Sum(base, before) if *before == rows_to(first as int) => (*base).plus(
                        rows_to(first + count),
                    ),
                    _ => Value::Unset,
                }
            } else if output == rows_to(first as int) {
                rows_to(first + count)
            } else {
                Value::Unset
            }
        },
        _ => Value::Unset,
    }
}

impl Tile {
    /// What a convolution reads.
    pub open spec fn source(self, which: Which) -> Held {
        match self.slots.read(which) {
            Some(held) => held,
            None => Value::Unset,
        }
    }

    /// What a convolution writes onto.
    pub open spec fn target(self, which: Which) -> Held {
        match self.slots.written(which) {
            Some(held) => held,
            None => Value::Unset,
        }
    }

    pub open spec fn with(self, which: Which, value: Held) -> Tile {
        Tile { slots: self.slots.with(which, value), ..self }
    }

    /// What a tile holds behind a launch.
    pub open spec fn after(self, step: VideoStep) -> Tile {
        match step {
            VideoStep::Make { which, output } => self.with(which, Value::Unset),
            VideoStep::Done { which } => Tile { slots: self.slots.settled(which), ..self },
            VideoStep::GroupNorm { which, input } => Tile {
                slots: Slots {
                    normalized: Some(Value::of(VideoOp::GroupNorm { which, input }, self.source(which))),
                    ..self.slots
                },
                ..self
            },
            VideoStep::Statistics { which, input } => Tile {
                statistics: Value::of(VideoOp::Statistics { which, input }, self.source(which)),
                ..self
            },
            VideoStep::Copy { input } => Tile {
                slots: Slots { residual: self.slots.hidden, ..self.slots },
                ..self
            },
            VideoStep::Fused { which, input, accumulate, normalize } => {
                let read = self.source(which);
                let normal = if !normalize {
                    read
                } else if self.statistics == Value::of(VideoOp::Statistics { which, input }, read) {
                    Value::of(VideoOp::GroupNorm { which, input }, read)
                } else {
                    Value::Unset
                };
                let value = Value::of(
                    VideoOp::Convolved { which, input, stride: 1, time_stride: 1, rows: input.rows() },
                    normal,
                );
                self.with(which, onto(accumulate, self.target(which), value))
            },
            VideoStep::Pointwise { which, rows, accumulate } => {
                let value = Value::of(VideoOp::Pointwise { which, rows: rows as int }, self.source(which));
                self.with(which, onto(accumulate, self.target(which), value))
            },
            VideoStep::Columns { which, input, stride, time_stride, first, count } => Tile {
                columns: Value::of(
                    VideoOp::Columns { which, input, stride, time_stride, first: first as int, count: count as int },
                    self.source(which),
                ),
                ..self
            },
            VideoStep::Product { which, first, count, accumulate } => self.with(
                which,
                sliced(which, self.columns, self.target(which), first, count, accumulate),
            ),
        }
    }

    /// What a tile holds behind launches.
    pub open spec fn behind(self, steps: Seq<VideoStep>) -> Tile
        decreases steps.len(),
    {
        if steps.len() == 0 {
            self
        } else {
            self.behind(steps.drop_last()).after(steps.last())
        }
    }
}

/// A convolution of a value, on top of `base` where there is one. Of an activation that leaves no rows nothing is
/// computed.
pub open spec fn convolved(
    which: Which,
    convolution: Convolution,
    input: Activation,
    stride: usize,
    time_stride: usize,
    base: Option<Held>,
    value: Held,
) -> Held {
    let rows = video_encoder::convolved(convolution, input, stride, time_stride).rows();
    let fused = video_encoder::fusing(convolution, input, stride, time_stride);
    let product = if convolution.kernel == 1 {
        Value::of(VideoOp::Pointwise { which, rows }, value)
    } else {
        Value::of(VideoOp::Convolved { which, input, stride, time_stride, rows }, value)
    };
    match base {
        _ if rows == 0 && !fused && convolution.kernel != 1 => match base {
            Some(base) => base,
            None => Value::Unset,
        },
        Some(base) => base.plus(product),
        None => product,
    }
}

/// A convolution of the normalized value.
pub open spec fn normal_convolved(
    which: Which,
    convolution: Convolution,
    input: Activation,
    base: Option<Held>,
    value: Held,
) -> Held {
    convolved(which, convolution, input, 1, 1, base, Value::of(VideoOp::GroupNorm { which, input }, value))
}

/// An activation and what it holds.
pub struct Flowing {
    pub shape: Activation,
    pub value: Held,
}

/// A block on an activation: two convolutions, each of the normalized value, on top of the value or of its shortcut.
pub open spec fn block_of(block: ResnetBlock, level: usize, index: usize, before: Flowing) -> Flowing {
    let hidden = video_encoder::convolved(block.conv1, before.shape, 1, 1);
    let first = normal_convolved(
        Which::First { level, block: index },
        block.conv1,
        before.shape,
        None,
        before.value,
    );
    let short = match block.shortcut {
        Some(shortcut) => Flowing {
            shape: video_encoder::convolved(shortcut, before.shape, 1, 1),
            value: convolved(
                Which::Shortcut { level, block: index },
                shortcut,
                before.shape,
                1,
                1,
                None,
                before.value,
            ),
        },
        None => before,
    };
    Flowing {
        shape: short.shape,
        value: normal_convolved(Which::Second { level, block: index }, block.conv2, hidden, Some(short.value), first),
    }
}

/// The first `count` blocks of a level.
pub open spec fn blocks_of(blocks: Seq<ResnetBlock>, level: usize, count: int, before: Flowing) -> Flowing
    decreases count,
{
    if count <= 0 {
        before
    } else {
        block_of(blocks[count - 1], level, (count - 1) as usize, blocks_of(blocks, level, count - 1, before))
    }
}

/// A level behind `halved` downsamplings: its blocks, and a strided convolution where it has one.
pub open spec fn level_of(level: Level, index: usize, halved: int, before: Flowing) -> Flowing {
    let middle = blocks_of(level.blocks@, index, level.blocks@.len() as int, before);
    match level.downsample {
        None => middle,
        Some(convolution) => {
            let stride = video_encoder::time_stride_of(halved);
            Flowing {
                shape: video_encoder::convolved(convolution, middle.shape, 2, stride),
                value: convolved(
                    Which::Downsample { level: index },
                    convolution,
                    middle.shape,
                    2,
                    stride,
                    None,
                    middle.value,
                ),
            }
        },
    }
}

/// The first `count` levels.
pub open spec fn levels_of(levels: Seq<Level>, count: int, before: Flowing) -> Flowing
    decreases count,
{
    if count <= 0 {
        before
    } else {
        level_of(
            levels[count - 1],
            (count - 1) as usize,
            video_encoder::downsamples(levels, count - 1),
            levels_of(levels, count - 1, before),
        )
    }
}

/// The moments of a tile's pixels.
pub open spec fn moments_of(encoder: CudaVideoEncoder, pixels: Flowing) -> Flowing {
    let begun = Flowing {
        shape: video_encoder::convolved(encoder.input, pixels.shape, 1, 1),
        value: convolved(Which::Input, encoder.input, pixels.shape, 1, 1, None, pixels.value),
    };
    let hidden = levels_of(encoder.levels@, encoder.levels@.len() as int, begun);
    let output = Flowing {
        shape: video_encoder::convolved(encoder.output, hidden.shape, 1, 1),
        value: normal_convolved(Which::Output, encoder.output, hidden.shape, None, hidden.value),
    };
    Flowing {
        shape: video_encoder::convolved(encoder.quant, output.shape, 1, 1),
        value: convolved(Which::Quant, encoder.quant, output.shape, 1, 1, None, output.value),
    }
}

proof fn behind_both(tile: Tile, one: Seq<VideoStep>, other: Seq<VideoStep>)
    ensures
        tile.behind(one + other) == tile.behind(one).behind(other),
    decreases other.len(),
{
    if other.len() == 0 {
        assert(one + other =~= one);
    } else {
        behind_both(tile, one, other.drop_last());
        assert((one + other).drop_last() =~= one + other.drop_last());
    }
}

proof fn behind_one(tile: Tile, one: VideoStep)
    ensures
        tile.behind(seq![one]) == tile.after(one),
{
    reveal_with_fuel(Tile::behind, 2);
    assert(seq![one].drop_last() =~= Seq::empty());
}

proof fn behind_two(tile: Tile, one: VideoStep, two: VideoStep)
    ensures
        tile.behind(seq![one, two]) == tile.after(one).after(two),
{
    behind_one(tile, one);
    assert(seq![one, two].drop_last() =~= seq![one]);
}

/// A convolution reads another slot than it writes.
proof fn a_source_is_no_target(slots: Slots<Held>, which: Which, value: Held)
    ensures
        slots.with(which, value).read(which) == slots.read(which),
        slots.with(which, value).written(which) == Some(value),
        forall|other: Held| #[trigger] slots.with(which, value).with(which, other) == slots.with(which, other),
{
}

/// What a convolution has written of a value so far, on top of `base` where it accumulates.
spec fn so_far(
    which: Which,
    input: Activation,
    stride: usize,
    time_stride: usize,
    accumulate: bool,
    base: Held,
    value: Held,
    rows: int,
) -> Held {
    onto(
        accumulate,
        base,
        Value::of(VideoOp::Convolved { which, input, stride, time_stride, rows }, value),
    )
}

/// What the slices of a convolution from row `first` on leave.
proof fn slices_flow(
    tile: Tile,
    which: Which,
    input: Activation,
    stride: usize,
    time_stride: usize,
    accumulate: bool,
    slice: int,
    rows: int,
    first: int,
    base: Held,
)
    requires
        0 <= first < rows <= usize::MAX,
        0 < slice,
        tile.slots.read(which) is Some,
        tile.slots.written(which) is Some,
        tile.target(which) == (if first == 0 {
            base
        } else {
            so_far(which, input, stride, time_stride, accumulate, base, tile.source(which), first)
        }),
    ensures
        ({
            let then = tile.behind(
                video_encoder::slices(which, input, stride, time_stride, accumulate, slice, rows, first),
            );
            then.slots == tile.slots.with(
                which,
                so_far(which, input, stride, time_stride, accumulate, base, tile.source(which), rows),
            )
        }),
    decreases rows - first,
{
    let value = tile.source(which);
    let count = crate::arithmetic::min(slice, rows - first);
    let one = VideoStep::Columns {
        which,
        input,
        stride,
        time_stride,
        first: first as usize,
        count: count as usize,
    };
    let two = VideoStep::Product { which, first: first as usize, count: count as usize, accumulate };
    let rest = video_encoder::slices(which, input, stride, time_stride, accumulate, slice, rows, first + count);
    behind_both(tile, seq![one, two], rest);
    behind_two(tile, one, two);
    let middle = tile.after(one).after(two);
    let written = so_far(which, input, stride, time_stride, accumulate, base, value, first + count);
    assert(middle.slots == tile.slots.with(which, written));
    a_source_is_no_target(tile.slots, which, written);
    if first + count < rows {
        slices_flow(middle, which, input, stride, time_stride, accumulate, slice, rows, first + count, base);
        assert(middle.source(which) == value);
    }
}

/// What the launches of a convolution leave, the slots being those it reads and writes.
proof fn passes_flow(
    tile: Tile,
    which: Which,
    convolution: Convolution,
    input: Activation,
    stride: usize,
    time_stride: usize,
    accumulate: Option<Activation>,
    normalize: bool,
    slice_bytes: usize,
    base: Option<Held>,
)
    requires
        stride > 0,
        time_stride > 0,
        video_encoder::countable(input),
        tile.slots.read(which) is Some,
        tile.slots.written(which) is Some,
        accumulate is Some == base is Some,
        tile.target(which) == (match base {
            Some(base) => base,
            None => Value::Unset,
        }),
    ensures
        video_encoder::passes_flow(
            which,
            convolution,
            input,
            stride,
            time_stride,
            accumulate,
            normalize,
            slice_bytes,
        ) matches Ok((steps, last)) ==> tile.behind(steps).slots == tile.slots.with(
            which,
            convolved(
                which,
                convolution,
                input,
                stride,
                time_stride,
                base,
                if normalize {
                    Value::of(VideoOp::GroupNorm { which, input }, tile.source(which))
                } else {
                    tile.source(which)
                },
            ),
        ),
{
    reveal(video_encoder::passes_flow);
    let made = video_encoder::convolved(convolution, input, stride, time_stride);
    video_encoder::a_convolution_leaves_no_more_rows(convolution, input, stride, time_stride);
    let flow = video_encoder::passes_flow(
        which,
        convolution,
        input,
        stride,
        time_stride,
        accumulate,
        normalize,
        slice_bytes,
    );
    let adds = accumulate is Some;
    let value = tile.source(which);
    if let Ok((steps, last)) = flow {
        if video_encoder::fusing(convolution, input, stride, time_stride) {
            let fused = VideoStep::Fused { which, input, accumulate: adds, normalize };
            let statistics = VideoStep::Statistics { which, input };
            assert(made.rows() == input.rows());
            if normalize {
                assert(steps =~= seq![statistics, fused]);
                behind_two(tile, statistics, fused);
            } else {
                behind_one(tile, fused);
            }
        } else if convolution.kernel == 1 {
            behind_one(tile, VideoStep::Pointwise { which, rows: made.rows() as usize, accumulate: adds });
        } else {
            let slice = video_encoder::slice_rows(slice_bytes, convolution.columns);
            if made.rows() > 0 {
                slices_flow(
                    tile,
                    which,
                    input,
                    stride,
                    time_stride,
                    adds,
                    slice,
                    made.rows(),
                    0,
                    tile.target(which),
                );
            } else {
                assert(tile.slots.with(which, tile.target(which)) == tile.slots);
            }
        }
    }
}

/// What a convolution leaves in its place.
proof fn a_convolution_flows(
    tile: Tile,
    which: Which,
    convolution: Convolution,
    input: Activation,
    stride: usize,
    time_stride: usize,
    accumulate: Option<Activation>,
    normalize: bool,
    slice_bytes: usize,
)
    requires
        stride > 0,
        time_stride > 0,
        video_encoder::countable(input),
        tile.slots.read(which) is Some,
        accumulate is Some == tile.slots.written(which) is Some,
    ensures
        video_encoder::convolve_flow(
            which,
            convolution,
            input,
            stride,
            time_stride,
            accumulate,
            normalize,
            slice_bytes,
        ) matches Ok((steps, last)) ==> {
            &&& tile.behind(steps).slots == tile.slots.with(
                which,
                convolved(
                    which,
                    convolution,
                    input,
                    stride,
                    time_stride,
                    tile.slots.written(which),
                    if normalize {
                        Value::of(VideoOp::GroupNorm { which, input }, tile.source(which))
                    } else {
                        tile.source(which)
                    },
                ),
            ).settled(which)
            &&& last == (match accumulate {
                Some(activation) => activation,
                None => video_encoder::convolved(convolution, input, stride, time_stride),
            })
        },
{
    reveal(video_encoder::convolve_flow);
    let flow = video_encoder::passes_flow(
        which,
        convolution,
        input,
        stride,
        time_stride,
        accumulate,
        normalize,
        slice_bytes,
    );
    if let Ok((passes, last)) = flow {
        assert(last == (match accumulate {
            Some(activation) => activation,
            None => video_encoder::convolved(convolution, input, stride, time_stride),
        })) by {
            reveal(video_encoder::passes_flow);
        }
        let done = VideoStep::Done { which };
        if accumulate is None {
            let make = VideoStep::Make { which, output: last };
            behind_one(tile, make);
            let made = tile.after(make);
            a_source_is_no_target(tile.slots, which, Value::Unset);
            passes_flow(
                made,
                which,
                convolution,
                input,
                stride,
                time_stride,
                accumulate,
                normalize,
                slice_bytes,
                None,
            );
            behind_both(tile, seq![make] + passes, seq![done]);
            behind_both(tile, seq![make], passes);
            behind_one(made.behind(passes), done);
            assert(made.source(which) == tile.source(which));
        } else {
            passes_flow(
                tile,
                which,
                convolution,
                input,
                stride,
                time_stride,
                accumulate,
                normalize,
                slice_bytes,
                tile.slots.written(which),
            );
            assert(Seq::<VideoStep>::empty() + passes + seq![done] =~= passes + seq![done]);
            behind_both(tile, passes, seq![done]);
            behind_one(tile.behind(passes), done);
        }
    }
}

/// What a convolution of the normalized activation leaves in its place.
proof fn a_normalized_convolution_flows(
    tile: Tile,
    which: Which,
    convolution: Convolution,
    input: Activation,
    accumulate: Option<Activation>,
    slice_bytes: usize,
)
    requires
        video_encoder::countable(input),
        tile.slots.normalized is None,
        tile.slots.read(which) is Some,
        accumulate is Some == tile.slots.written(which) is Some,
    ensures
        video_encoder::normalized_flow(which, convolution, input, accumulate, slice_bytes) matches Ok((steps, last)) ==> {
            &&& tile.behind(steps).slots == tile.slots.with(
                which,
                normal_convolved(which, convolution, input, tile.slots.written(which), tile.source(which)),
            ).settled(which)
            &&& last == (match accumulate {
                Some(activation) => activation,
                None => video_encoder::convolved(convolution, input, 1, 1),
            })
        },
{
    reveal(video_encoder::normalized_flow);
    a_convolution_flows(tile, which, convolution, input, 1, 1, accumulate, true, slice_bytes);
    let norm = VideoStep::GroupNorm { which, input };
    behind_one(tile, norm);
    let normal = tile.after(norm);
    a_convolution_flows(normal, which, convolution, input, 1, 1, accumulate, false, slice_bytes);
    if let Ok((steps, last)) = video_encoder::convolve_flow(
        which,
        convolution,
        input,
        1,
        1,
        accumulate,
        false,
        slice_bytes,
    ) {
        behind_both(tile, seq![norm], steps);
        let value = normal_convolved(which, convolution, input, tile.slots.written(which), tile.source(which));
        assert(normal.slots.with(which, value).settled(which) == tile.slots.with(which, value).settled(which));
    }
}

/// Whether a tile holds nothing but a value between its blocks.
pub open spec fn is_between(tile: Tile, value: Held) -> bool {
    tile.slots == (Slots { hidden: Some(value), first: None, residual: None, normalized: None })
}

proof fn shapes_stay_countable(convolution: Convolution, input: Activation)
    requires
        video_encoder::countable(input),
    ensures
        video_encoder::countable(video_encoder::convolved(convolution, input, 1, 1)),
{
    video_encoder::a_convolution_leaves_no_more_rows(convolution, input, 1, 1);
}

proof fn a_block_flows(tile: Tile, block: ResnetBlock, level: usize, index: usize, before: Flowing, slice_bytes: usize)
    requires
        video_encoder::countable(before.shape),
        is_between(tile, before.value),
    ensures
        video_encoder::block_flow(block, level, index, before.shape, slice_bytes) matches Ok((steps, last)) ==> {
            let then = block_of(block, level, index, before);
            &&& is_between(tile.behind(steps), then.value)
            &&& last == then.shape
            &&& video_encoder::countable(last)
        },
{
    reveal(video_encoder::block_flow);
    let input = before.shape;
    let first = Which::First { level, block: index };
    let short = Which::Shortcut { level, block: index };
    let second = Which::Second { level, block: index };
    a_normalized_convolution_flows(tile, first, block.conv1, input, None, slice_bytes);
    if let Ok((one, hidden)) = video_encoder::normalized_flow(first, block.conv1, input, None, slice_bytes) {
        shapes_stay_countable(block.conv1, input);
        let held = tile.behind(one);
        if let Some(shortcut) = block.shortcut {
            a_convolution_flows(held, short, shortcut, input, 1, 1, None, false, slice_bytes);
            shapes_stay_countable(shortcut, input);
        } else {
            behind_one(held, VideoStep::Copy { input });
        }
        if let Ok((two, residual)) = video_encoder::shortcut_flow(block, level, index, input, slice_bytes) {
            let both = held.behind(two);
            a_normalized_convolution_flows(both, second, block.conv2, hidden, Some(residual), slice_bytes);
            if let Ok((three, last)) = video_encoder::normalized_flow(
                second,
                block.conv2,
                hidden,
                Some(residual),
                slice_bytes,
            ) {
                behind_both(tile, one, two);
                behind_both(tile, one + two, three);
            }
        }
    }
}

proof fn blocks_flow(
    tile: Tile,
    blocks: Seq<ResnetBlock>,
    level: usize,
    before: Flowing,
    slice_bytes: usize,
    count: int,
)
    requires
        video_encoder::countable(before.shape),
        is_between(tile, before.value),
    ensures
        video_encoder::blocks_flow(blocks, level, before.shape, slice_bytes, count) matches Ok((steps, last)) ==> {
            let then = blocks_of(blocks, level, count, before);
            &&& is_between(tile.behind(steps), then.value)
            &&& last == then.shape
            &&& video_encoder::countable(last)
        },
    decreases count,
{
    if count > 0 {
        blocks_flow(tile, blocks, level, before, slice_bytes, count - 1);
        if let Ok((early, middle)) = video_encoder::blocks_flow(blocks, level, before.shape, slice_bytes, count - 1) {
            let index = (count - 1) as usize;
            let reached = blocks_of(blocks, level, count - 1, before);
            a_block_flows(tile.behind(early), blocks[count - 1], level, index, reached, slice_bytes);
            if let Ok((steps, last)) = video_encoder::block_flow(blocks[count - 1], level, index, middle, slice_bytes) {
                behind_both(tile, early, steps);
            }
        }
    }
}

proof fn a_level_flows(tile: Tile, level: Level, index: usize, halved: int, before: Flowing, slice_bytes: usize)
    requires
        video_encoder::countable(before.shape),
        is_between(tile, before.value),
    ensures
        video_encoder::level_flow(level, index, halved, before.shape, slice_bytes) matches Ok((steps, last)) ==> {
            let then = level_of(level, index, halved, before);
            &&& is_between(tile.behind(steps), then.value)
            &&& last == then.shape
            &&& video_encoder::countable(last)
        },
{
    reveal(video_encoder::level_flow);
    let count = level.blocks@.len() as int;
    blocks_flow(tile, level.blocks@, index, before, slice_bytes, count);
    if let Ok((early, middle)) = video_encoder::blocks_flow(level.blocks@, index, before.shape, slice_bytes, count) {
        let reached = tile.behind(early);
        if let Some(convolution) = level.downsample {
            let which = Which::Downsample { level: index };
            let stride = video_encoder::time_stride_of(halved);
            a_convolution_flows(reached, which, convolution, middle, 2, stride, None, false, slice_bytes);
            video_encoder::a_convolution_is_countable(which, convolution, middle, 2, stride, None, false, slice_bytes);
            let flow = video_encoder::convolve_flow(which, convolution, middle, 2, stride, None, false, slice_bytes);
            if let Ok((rest, last)) = flow {
                behind_both(tile, early, rest);
            }
        } else {
            assert(early + Seq::<VideoStep>::empty() =~= early);
        }
    }
}

proof fn levels_flow(tile: Tile, levels: Seq<Level>, before: Flowing, slice_bytes: usize, count: int)
    requires
        video_encoder::countable(before.shape),
        is_between(tile, before.value),
    ensures
        video_encoder::levels_flow(levels, before.shape, slice_bytes, count) matches Ok((steps, last)) ==> {
            let then = levels_of(levels, count, before);
            &&& is_between(tile.behind(steps), then.value)
            &&& last == then.shape
            &&& video_encoder::countable(last)
        },
    decreases count,
{
    if count > 0 {
        levels_flow(tile, levels, before, slice_bytes, count - 1);
        if let Ok((early, middle)) = video_encoder::levels_flow(levels, before.shape, slice_bytes, count - 1) {
            let (level, index) = (levels[count - 1], (count - 1) as usize);
            let halved = video_encoder::downsamples(levels, count - 1);
            let reached = levels_of(levels, count - 1, before);
            a_level_flows(tile.behind(early), level, index, halved, reached, slice_bytes);
            if let Ok((steps, last)) = video_encoder::level_flow(level, index, halved, middle, slice_bytes) {
                behind_both(tile, early, steps);
            }
        }
    }
}

/// The launches of a tile leave the moments of its pixels: every convolution is of the whole activation that the one
/// before it left, normalized once where it is normalized, and every block is on top of what came into it or of its
/// shortcut.
pub proof fn a_tile_is_encoded(tile: Tile, encoder: CudaVideoEncoder, pixels: Flowing, slice_bytes: usize)
    requires
        video_encoder::countable(pixels.shape),
        is_between(tile, pixels.value),
        video_encoder::tile_flow(encoder, pixels.shape, slice_bytes) is Ok,
    ensures
        ({
            let (steps, moments) = video_encoder::tile_flow(encoder, pixels.shape, slice_bytes)->Ok_0;
            &&& tile.behind(steps).slots.residual == Some(moments_of(encoder, pixels).value)
            &&& moments == moments_of(encoder, pixels).shape
        }),
{
    let input = pixels.shape;
    let count = encoder.levels@.len() as int;
    a_convolution_flows(tile, Which::Input, encoder.input, input, 1, 1, None, false, slice_bytes);
    shapes_stay_countable(encoder.input, input);
    let one = video_encoder::convolve_flow(Which::Input, encoder.input, input, 1, 1, None, false, slice_bytes);
    let (first_steps, first) = one->Ok_0;
    let begun = Flowing {
        shape: first,
        value: convolved(Which::Input, encoder.input, input, 1, 1, None, pixels.value),
    };
    let started = tile.behind(first_steps);
    levels_flow(started, encoder.levels@, begun, slice_bytes, count);
    let (level_steps, middle) = video_encoder::levels_flow(encoder.levels@, first, slice_bytes, count)->Ok_0;
    let hidden = started.behind(level_steps);
    a_normalized_convolution_flows(hidden, Which::Output, encoder.output, middle, None, slice_bytes);
    let two = video_encoder::normalized_flow(Which::Output, encoder.output, middle, None, slice_bytes);
    let (output_steps, output) = two->Ok_0;
    shapes_stay_countable(encoder.output, middle);
    let ready = hidden.behind(output_steps);
    a_convolution_flows(ready, Which::Quant, encoder.quant, output, 1, 1, None, false, slice_bytes);
    let three = video_encoder::convolve_flow(Which::Quant, encoder.quant, output, 1, 1, None, false, slice_bytes);
    let (quant_steps, moments) = three->Ok_0;
    let (steps, last) = video_encoder::tile_flow(encoder, input, slice_bytes)->Ok_0;
    assert(steps == (first_steps + level_steps) + (output_steps + quant_steps));
    behind_both(tile, first_steps + level_steps, output_steps + quant_steps);
    behind_both(tile, first_steps, level_steps);
    behind_both(hidden, output_steps, quant_steps);
}

} // verus!
