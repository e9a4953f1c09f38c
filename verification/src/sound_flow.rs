//! What the launches of a sound compute: the buffers of the audio encoder as values, and the encoder as a formula.
use crate::audio_encoder::{BlockParts, EncoderParts, ResidualUnit};
use crate::audio_vae::Convolution;
use crate::sound;
use crate::sound::{HeadLinear, HeadNorm, Snake, Sound, SoundLayer, SoundStep, Walk};
use crate::value::Value;
use vstd::prelude::*;

verus! {

/// The operations of the encoder's kernels.
#[allow(inconsistent_fields)]
pub enum SoundOp {
    /// The columns of some rows of a convolution.
    Columns { layer: SoundLayer, walk: Walk, length: usize, first: int, count: int },
    /// The first so many rows of a convolution.
    Convolved { layer: SoundLayer, walk: Walk, length: usize, rows: int },
    /// So many rows through a convolution of one sample.
    Pointwise { layer: SoundLayer, rows: usize },
    Snake { snake: Snake, length: usize },
    /// So many values.
    Values { count: usize },
    Norm { norm: HeadNorm, rows: usize },
    Linear { linear: HeadLinear, rows: usize },
    /// The queries, the keys and the values of every head.
    Query { rows: usize, head_dim: usize },
    Key { rows: usize, head_dim: usize },
    HeadValues { rows: usize, head_dim: usize },
    Scores { offset: usize, rows: usize, head_dim: usize },
    Softmax { rows: usize, head_dim: usize },
    Attend { offset: usize, rows: usize, head_dim: usize },
    Pool { rows: usize, head_dim: usize, outputs: usize },
    Geglu { count: usize },
}

/// What a buffer of a sound holds.
pub type Held = Value<SoundOp>;

/// What the buffers of a sound hold, and of the attention the part of each head, by its first byte.
pub struct Buffers {
    pub held: Map<Sound, Held>,
    pub heads: Map<usize, Held>,
}

/// What a product of columns leaves: one more slice of rows of a convolution, where the rows before them are there.
pub open spec fn sliced(layer: SoundLayer, columns: Held, output: Held, first: usize, count: usize) -> Held {
    match columns {
        Value::Made(SoundOp::Columns { layer: of, walk, length, first: from, count: rows }, values) => {
            let before = Value::Made(SoundOp::Convolved { layer, walk, length, rows: first as int }, values);
            if of == layer && from == first && rows == count && (first == 0 || output == before) {
                Value::Made(SoundOp::Convolved { layer, walk, length, rows: first + count }, values)
            } else {
                Value::Unset
            }
        },
        _ => Value::Unset,
    }
}

impl Buffers {
    pub open spec fn at(self, buffer: Sound) -> Held {
        self.held[buffer]
    }

    pub open spec fn with(self, buffer: Sound, value: Held) -> Buffers {
        Buffers { held: self.held.insert(buffer, value), ..self }
    }

    /// What the buffers hold behind a launch.
    pub open spec fn after(self, step: SoundStep) -> Buffers {
        match step {
            SoundStep::Columns { layer, walk, input, length, first, count } => self.with(
                Sound::Columns,
                Value::of(
                    SoundOp::Columns { layer, walk, length, first: first as int, count: count as int },
                    self.at(input),
                ),
            ),
            SoundStep::Product { layer, input, output, first, count } => self.with(
                output,
                if input == Sound::Columns {
                    sliced(layer, self.at(Sound::Columns), self.at(output), first, count)
                } else if first == 0 {
                    Value::of(SoundOp::Pointwise { layer, rows: count }, self.at(input))
                } else {
                    Value::Unset
                },
            ),
            SoundStep::Snake { snake, input, output, length } => self.with(
                output,
                Value::of(SoundOp::Snake { snake, length }, self.at(input)),
            ),
            SoundStep::Add { output, first, second, count } => self.with(
                output,
                Value::of(SoundOp::Values { count }, self.at(first).plus(self.at(second))),
            ),
            SoundStep::Norm { norm, input, output, rows } => self.with(
                output,
                Value::of(SoundOp::Norm { norm, rows }, self.at(input)),
            ),
            SoundStep::Linear { linear, input, output, rows } => self.with(
                output,
                Value::of(SoundOp::Linear { linear, rows }, self.at(input)),
            ),
            SoundStep::Split { rows, head_dim } => {
                let qkv = self.at(Sound::Qkv);
                self.with(Sound::Query, Value::of(SoundOp::Query { rows, head_dim }, qkv)).with(
                    Sound::Key,
                    Value::of(SoundOp::Key { rows, head_dim }, qkv),
                ).with(Sound::Values, Value::of(SoundOp::HeadValues { rows, head_dim }, qkv))
            },
            SoundStep::Scores { offset, rows, head_dim } => self.with(
                Sound::Scores,
                Value::of_both(
                    SoundOp::Scores { offset, rows, head_dim },
                    self.at(Sound::Query),
                    self.at(Sound::Key),
                ),
            ),
            SoundStep::Softmax { rows, head_dim } => self.with(
                Sound::Scores,
                Value::of(SoundOp::Softmax { rows, head_dim }, self.at(Sound::Scores)),
            ),
            SoundStep::Attend { offset, rows, head_dim } => Buffers {
                heads: self.heads.insert(
                    offset,
                    Value::of_both(
                        SoundOp::Attend { offset, rows, head_dim },
                        self.at(Sound::Scores),
                        self.at(Sound::Values),
                    ),
                ),
                ..self
            },
            SoundStep::Pool { rows, head_dim, outputs } => self.with(
                Sound::HeadFirst,
                Value::Made(
                    SoundOp::Pool { rows, head_dim, outputs },
                    Seq::new(8, |head: int| self.heads[head_at(rows as int, head_dim as int, head)]),
                ),
            ),
            SoundStep::Geglu { count } => self.with(
                Sound::Key,
                Value::of_both(SoundOp::Geglu { count }, self.at(Sound::Qkv), self.at(Sound::Query)),
            ),
        }
    }

    /// What the buffers hold behind launches.
    pub open spec fn behind(self, steps: Seq<SoundStep>) -> Buffers
        decreases steps.len(),
    {
        if steps.len() == 0 {
            self
        } else {
            self.behind(steps.drop_last()).after(steps.last())
        }
    }
}

/// The first byte of a head.
pub open spec fn head_at(rows: int, head_dim: int, head: int) -> usize {
    (head * rows * head_dim * 4) as usize
}

/// A convolution of `length` samples into `rows`.
pub open spec fn convolved(
    layer: SoundLayer,
    convolution: Convolution,
    walk: Walk,
    length: int,
    rows: int,
    value: Held,
) -> Held {
    if convolution.kernel == 1 {
        Value::of(SoundOp::Pointwise { layer, rows: rows as usize }, value)
    } else {
        Value::of(SoundOp::Convolved { layer, walk, length: length as usize, rows }, value)
    }
}

/// A walk whose padding keeps the length.
pub open spec fn kept(kernel: usize, dilation: usize) -> Walk {
    Walk { dilation, step: 1, padding: (dilation * (kernel - 1) / 2) as usize }
}

pub open spec fn snaked(snake: Snake, length: int, value: Held) -> Held {
    Value::of(SoundOp::Snake { snake, length: length as usize }, value)
}

pub open spec fn sum_of(count: int, one: Held, other: Held) -> Held {
    Value::of(SoundOp::Values { count: count as usize }, one.plus(other))
}

/// A residual unit on a signal: a dilated and a pointwise convolution, each behind a Snake, on top of the signal.
pub open spec fn unit_of(parts: ResidualUnit, block: int, unit: int, length: int, channels: int, value: Held) -> Held {
    let (b, u) = (block as usize, unit as usize);
    let dilated = convolved(
        SoundLayer::Dilated { block: b, unit: u },
        parts.dilated,
        kept(parts.dilated.kernel, parts.dilation),
        length,
        length,
        snaked(Snake::Before { block: b, unit: u }, length, value),
    );
    let pointwise = convolved(
        SoundLayer::Pointwise { block: b, unit: u },
        parts.pointwise,
        kept(parts.pointwise.kernel, 1),
        length,
        length,
        snaked(Snake::Between { block: b, unit: u }, length, dilated),
    );
    sum_of(length * channels, value, pointwise)
}

/// The first `count` units of a block on a signal, one on what the other left.
pub open spec fn units_of(
    units: Seq<ResidualUnit>,
    block: int,
    length: int,
    channels: int,
    count: int,
    value: Held,
) -> Held
    decreases count,
{
    if count <= 0 {
        value
    } else {
        unit_of(
            units[count - 1],
            block,
            count - 1,
            length,
            channels,
            units_of(units, block, length, channels, count - 1, value),
        )
    }
}

/// A block on a signal: its three units, and a strided convolution behind a Snake.
pub open spec fn block_of(parts: BlockParts, block: int, length: int, channels: int, after: int, value: Held) -> Held {
    convolved(
        SoundLayer::Downsample { block: block as usize },
        parts.downsample,
        Walk { dilation: 1, step: parts.stride, padding: ((parts.stride + 1) / 2) as usize },
        length,
        after,
        snaked(
            Snake::Block { block: block as usize },
            length,
            units_of(parts.units, block, length, channels, 3, value),
        ),
    )
}

/// The signal behind the first `count` blocks.
pub open spec fn signal_of(parts: EncoderParts, samples: int, count: int, value: Held) -> Held
    decreases count,
{
    if count <= 0 {
        value
    } else {
        block_of(
            parts.blocks[count - 1],
            count - 1,
            sound::length_after(samples, count - 1),
            sound::channels_before(parts, count - 1) as int,
            sound::length_after(samples, count),
            signal_of(parts, samples, count - 1, value),
        )
    }
}

/// The features of the samples of a channel.
pub open spec fn features_of(parts: EncoderParts, frames: int, samples: Held) -> Held {
    let count = frames * 800;
    let begun = convolved(SoundLayer::Input, parts.input, kept(parts.input.kernel, 1), count, count, samples);
    convolved(
        SoundLayer::Post,
        parts.post,
        kept(parts.post.kernel, 1),
        frames,
        frames,
        snaked(Snake::Post, frames, signal_of(parts, count, 5, begun)),
    )
}

pub open spec fn normed(norm: HeadNorm, frames: int, value: Held) -> Held {
    Value::of(SoundOp::Norm { norm, rows: frames as usize }, value)
}

pub open spec fn projected(linear: HeadLinear, frames: int, value: Held) -> Held {
    Value::of(SoundOp::Linear { linear, rows: frames as usize }, value)
}

/// The values of a head, weighted by the softmax of the scores of its own queries against its own keys.
pub open spec fn head_of(qkv: Held, frames: int, dim: int, head: int) -> Held {
    let (rows, head_dim, offset) = (frames as usize, dim as usize, (head * frames * dim * 4) as usize);
    let scores = Value::of_both(
        SoundOp::Scores { offset, rows, head_dim },
        Value::of(SoundOp::Query { rows, head_dim }, qkv),
        Value::of(SoundOp::Key { rows, head_dim }, qkv),
    );
    Value::of_both(
        SoundOp::Attend { offset, rows, head_dim },
        Value::of(SoundOp::Softmax { rows, head_dim }, scores),
        Value::of(SoundOp::HeadValues { rows, head_dim }, qkv),
    )
}

/// The attention of the head: its eight heads pooled onto the latent channels, and projected.
pub open spec fn attended(parts: EncoderParts, frames: int, features: Held) -> Held {
    let dim = parts.features as int / 8;
    let qkv = projected(HeadLinear::Qkv, frames, normed(HeadNorm::Norm1, frames, features));
    projected(
        HeadLinear::AttentionProjection,
        frames,
        Value::Made(
            SoundOp::Pool { rows: frames as usize, head_dim: dim as usize, outputs: parts.latent_channels },
            Seq::new(8, |head: int| head_of(qkv, frames, dim, head)),
        ),
    )
}

/// The mean of a channel's posterior: the projected features with their attention on top, and the GeGLU of those
/// normalized on top of both, through the mean projection.
pub open spec fn mean_of(parts: EncoderParts, frames: int, features: Held) -> Held {
    let count = frames * parts.latent_channels;
    let begun = sum_of(
        count,
        projected(HeadLinear::Projection, frames, normed(HeadNorm::Norm3, frames, features)),
        attended(parts, frames, features),
    );
    let normal = normed(HeadNorm::Mlp, frames, normed(HeadNorm::Norm2, frames, begun));
    let inside = Value::of_both(
        SoundOp::Geglu { count: (frames * (2 * parts.latent_channels)) as usize },
        projected(HeadLinear::Gate, frames, normal),
        projected(HeadLinear::Value, frames, normal),
    );
    let whole = sum_of(count, projected(HeadLinear::Output, frames, inside), begun);
    Value::of(SoundOp::Pointwise { layer: SoundLayer::MeanProjection, rows: frames as usize }, whole)
}

proof fn behind_both(buffers: Buffers, one: Seq<SoundStep>, other: Seq<SoundStep>)
    ensures
        buffers.behind(one + other) == buffers.behind(one).behind(other),
    decreases other.len(),
{
    if other.len() == 0 {
        assert(one + other =~= one);
    } else {
        behind_both(buffers, one, other.drop_last());
        assert((one + other).drop_last() =~= one + other.drop_last());
    }
}

proof fn behind_one(buffers: Buffers, one: SoundStep)
    ensures
        buffers.behind(seq![one]) == buffers.after(one),
{
    reveal_with_fuel(Buffers::behind, 2);
    assert(seq![one].drop_last() =~= Seq::empty());
}

proof fn behind_two(buffers: Buffers, one: SoundStep, two: SoundStep)
    ensures
        buffers.behind(seq![one, two]) == buffers.after(one).after(two),
{
    behind_one(buffers, one);
    assert(seq![one, two].drop_last() =~= seq![one]);
}

proof fn behind_three(buffers: Buffers, one: SoundStep, two: SoundStep, three: SoundStep)
    ensures
        buffers.behind(seq![one, two, three]) == buffers.after(one).after(two).after(three),
{
    behind_two(buffers, one, two);
    assert(seq![one, two, three].drop_last() =~= seq![one, two]);
}

/// Whether buffers other than these two are as they were.
spec fn keeps(then: Buffers, buffers: Buffers, one: Sound, other: Sound) -> bool {
    forall|buffer: Sound| buffer != one && buffer != other ==> #[trigger] then.at(buffer) == buffers.at(buffer)
}

/// What the slices of a convolution from row `first` on leave.
proof fn slices_flow(
    buffers: Buffers,
    layer: SoundLayer,
    walk: Walk,
    input: Sound,
    output: Sound,
    length: int,
    slice: int,
    rows: int,
    first: int,
)
    requires
        0 <= first < rows <= usize::MAX,
        0 < slice,
        input != output,
        input != Sound::Columns,
        output != Sound::Columns,
        first > 0 ==> buffers.at(output) == Value::of(
            SoundOp::Convolved { layer, walk, length: length as usize, rows: first },
            buffers.at(input),
        ),
    ensures
        ({
            let then = buffers.behind(sound::slices(layer, walk, input, output, length, slice, rows, first));
            &&& then.at(output) == Value::of(
                SoundOp::Convolved { layer, walk, length: length as usize, rows },
                buffers.at(input),
            )
            &&& keeps(then, buffers, output, Sound::Columns)
        }),
    decreases rows - first,
{
    let count = crate::arithmetic::min(slice, rows - first);
    let one = SoundStep::Columns {
        layer,
        walk,
        input,
        length: length as usize,
        first: first as usize,
        count: count as usize,
    };
    let two = SoundStep::Product {
        layer,
        input: Sound::Columns,
        output,
        first: first as usize,
        count: count as usize,
    };
    let rest = sound::slices(layer, walk, input, output, length, slice, rows, first + count);
    behind_both(buffers, seq![one, two], rest);
    behind_two(buffers, one, two);
    let middle = buffers.after(one).after(two);
    assert(middle.at(output) == Value::of(
        SoundOp::Convolved { layer, walk, length: length as usize, rows: first + count },
        buffers.at(input),
    ));
    if first + count < rows {
        slices_flow(middle, layer, walk, input, output, length, slice, rows, first + count);
        let then = middle.behind(rest);
        assert forall|buffer: Sound| buffer != output && buffer != Sound::Columns implies #[trigger] then.at(buffer)
            == buffers.at(buffer) by {
            assert(then.at(buffer) == middle.at(buffer));
        }
    }
}

proof fn a_convolution_flows(
    buffers: Buffers,
    layer: SoundLayer,
    convolution: Convolution,
    walk: Walk,
    input: Sound,
    output: Sound,
    length: int,
    rows: int,
    slice: usize,
)
    requires
        0 < rows <= usize::MAX,
        input != output,
        input != Sound::Columns,
        output != Sound::Columns,
    ensures
        ({
            let then = buffers.behind(
                sound::convolve_steps(layer, convolution, walk, input, output, length, rows, slice),
            );
            &&& then.at(output) == convolved(layer, convolution, walk, length, rows, buffers.at(input))
            &&& keeps(then, buffers, output, Sound::Columns)
        }),
{
    if convolution.kernel == 1 {
        behind_one(buffers, SoundStep::Product { layer, input, output, first: 0, count: rows as usize });
    } else {
        slices_flow(
            buffers,
            layer,
            walk,
            input,
            output,
            length,
            sound::slice_rows(slice, convolution.kernel * convolution.inputs),
            rows,
            0,
        );
    }
}

proof fn a_unit_flows(
    buffers: Buffers,
    parts: ResidualUnit,
    block: int,
    unit: int,
    length: int,
    channels: int,
    slice: usize,
)
    requires
        0 < length <= usize::MAX,
    ensures
        buffers.behind(sound::unit_steps(parts, block, unit, length, channels, slice)).at(Sound::Signal) == unit_of(
            parts,
            block,
            unit,
            length,
            channels,
            buffers.at(Sound::Signal),
        ),
{
    let (b, u) = (block as usize, unit as usize);
    let first = SoundStep::Snake {
        snake: Snake::Before { block: b, unit: u },
        input: Sound::Signal,
        output: Sound::First,
        length: length as usize,
    };
    let second = SoundStep::Snake {
        snake: Snake::Between { block: b, unit: u },
        input: Sound::Second,
        output: Sound::First,
        length: length as usize,
    };
    let add = SoundStep::Add {
        output: Sound::Signal,
        first: Sound::Signal,
        second: Sound::Second,
        count: (length * channels) as usize,
    };
    let (dilated, pointwise) = (
        SoundLayer::Dilated { block: b, unit: u },
        SoundLayer::Pointwise { block: b, unit: u },
    );
    let (far, near) = (kept(parts.dilated.kernel, parts.dilation), kept(parts.pointwise.kernel, 1));
    assert(far == sound::keeping(parts.dilated.kernel, parts.dilation));
    assert(near == sound::keeping(parts.pointwise.kernel, 1));
    let wide = sound::convolve_steps(
        dilated,
        parts.dilated,
        far,
        Sound::First,
        Sound::Second,
        length,
        length,
        slice,
    );
    let narrow = sound::convolve_steps(
        pointwise,
        parts.pointwise,
        near,
        Sound::First,
        Sound::Second,
        length,
        length,
        slice,
    );
    assert(sound::unit_steps(parts, block, unit, length, channels, slice) =~= seq![first] + wide + seq![second] + narrow
        + seq![add]);
    behind_both(buffers, seq![first] + wide + seq![second] + narrow, seq![add]);
    behind_both(buffers, seq![first] + wide + seq![second], narrow);
    behind_both(buffers, seq![first] + wide, seq![second]);
    behind_both(buffers, seq![first], wide);
    behind_one(buffers, first);
    let one = buffers.after(first);
    a_convolution_flows(one, dilated, parts.dilated, far, Sound::First, Sound::Second, length, length, slice);
    let two = one.behind(wide);
    behind_one(two, second);
    let three = two.after(second);
    a_convolution_flows(three, pointwise, parts.pointwise, near, Sound::First, Sound::Second, length, length, slice);
    let four = three.behind(narrow);
    behind_one(four, add);
    assert(four.at(Sound::Signal) == three.at(Sound::Signal));
    assert(two.at(Sound::Signal) == one.at(Sound::Signal));
    assert(three.at(Sound::First) == snaked(
        Snake::Between { block: b, unit: u },
        length,
        two.at(Sound::Second),
    ));
    assert(one.at(Sound::First) == snaked(
        Snake::Before { block: b, unit: u },
        length,
        buffers.at(Sound::Signal),
    ));
}

proof fn units_flow(
    buffers: Buffers,
    units: Seq<ResidualUnit>,
    block: int,
    length: int,
    channels: int,
    slice: usize,
    count: int,
)
    requires
        0 < length <= usize::MAX,
        0 <= count,
    ensures
        buffers.behind(sound::units_steps(units, block, length, channels, slice, count)).at(Sound::Signal) == units_of(
            units,
            block,
            length,
            channels,
            count,
            buffers.at(Sound::Signal),
        ),
    decreases count,
{
    if count > 0 {
        units_flow(buffers, units, block, length, channels, slice, count - 1);
        let earlier = sound::units_steps(units, block, length, channels, slice, count - 1);
        let list = sound::unit_steps(units[count - 1], block, count - 1, length, channels, slice);
        behind_both(buffers, earlier, list);
        a_unit_flows(buffers.behind(earlier), units[count - 1], block, count - 1, length, channels, slice);
    }
}

proof fn blocks_flow(buffers: Buffers, parts: EncoderParts, frames: int, slice: usize, count: int)
    requires
        sound::is_loaded(parts),
        0 < frames,
        frames * 800 <= usize::MAX,
        0 <= count <= 5,
    ensures
        buffers.behind(sound::blocks_steps(parts, frames * 800, slice, count)).at(Sound::Signal) == signal_of(
            parts,
            frames * 800,
            count,
            buffers.at(Sound::Signal),
        ),
    decreases count,
{
    if count > 0 {
        let samples = frames * 800;
        let block = count - 1;
        let held = parts.blocks[block];
        let length = sound::length_after(samples, block);
        let channels = sound::channels_before(parts, block) as int;
        sound::a_fold_divides_the_samples(frames, block);
        assert(held.stride == crate::audio_encoder::stride_of(block));
        assert(crate::audio_encoder::block_is_valid(
            held,
            crate::audio_encoder::doubled(parts.input.outputs as int, block),
        ));
        let after = sound::length_after(samples, count);
        let walk = Walk { dilation: 1, step: held.stride, padding: ((held.stride + 1) / 2) as usize };
        crate::arithmetic::ceil_div_is_least(held.stride as int, 2);
        assert(walk == sound::folding(held.stride));
        blocks_flow(buffers, parts, frames, slice, block);
        let earlier = sound::blocks_steps(parts, samples, slice, block);
        let units = sound::units_steps(held.units, block, length, channels, slice, 3);
        let fold = sound::fold_steps(held, block, length, slice);
        behind_both(buffers, earlier + units, fold);
        behind_both(buffers, earlier, units);
        let before = buffers.behind(earlier);
        units_flow(before, held.units, block, length, channels, slice, 3);
        let middle = before.behind(units);
        let snake = SoundStep::Snake {
            snake: Snake::Block { block: block as usize },
            input: Sound::Signal,
            output: Sound::First,
            length: length as usize,
        };
        let layer = SoundLayer::Downsample { block: block as usize };
        let down = sound::convolve_steps(
            layer,
            held.downsample,
            walk,
            Sound::First,
            Sound::Signal,
            length,
            after,
            slice,
        );
        assert(fold =~= seq![snake] + down);
        behind_both(middle, seq![snake], down);
        behind_one(middle, snake);
        a_convolution_flows(
            middle.after(snake),
            layer,
            held.downsample,
            walk,
            Sound::First,
            Sound::Signal,
            length,
            after,
            slice,
        );
    }
}

/// What the heads leave: the part of each of the first `count` heads, and the features as they were.
proof fn heads_flow(buffers: Buffers, qkv: Held, frames: int, dim: int, count: int)
    requires
        0 <= frames <= usize::MAX,
        0 <= dim <= usize::MAX,
        0 <= count,
        buffers.at(Sound::Query) == Value::of(SoundOp::Query { rows: frames as usize, head_dim: dim as usize }, qkv),
        buffers.at(Sound::Key) == Value::of(SoundOp::Key { rows: frames as usize, head_dim: dim as usize }, qkv),
        buffers.at(Sound::Values) == Value::of(
            SoundOp::HeadValues { rows: frames as usize, head_dim: dim as usize },
            qkv,
        ),
    ensures
        ({
            let then = buffers.behind(sound::heads_steps(frames, dim, count));
            &&& forall|head: int|
                0 <= head < count ==> then.heads[#[trigger] head_at(frames, dim, head)] == head_of(
                    qkv,
                    frames,
                    dim,
                    head,
                )
            &&& forall|buffer: Sound| buffer != Sound::Scores ==> #[trigger] then.at(buffer) == buffers.at(buffer)
        }),
    decreases count,
{
    if count > 0 {
        heads_flow(buffers, qkv, frames, dim, count - 1);
        let earlier = sound::heads_steps(frames, dim, count - 1);
        let list = sound::head_steps(frames, dim, count - 1);
        let before = buffers.behind(earlier);
        behind_both(buffers, earlier, list);
        behind_three(before, list[0], list[1], list[2]);
        assert(list =~= seq![list[0], list[1], list[2]]);
        let then = before.behind(list);
        assert(before.at(Sound::Query) == buffers.at(Sound::Query));
        assert(before.at(Sound::Key) == buffers.at(Sound::Key));
        assert(before.at(Sound::Values) == buffers.at(Sound::Values));
        let place = head_at(frames, dim, count - 1);
        assert(then.heads[place] == head_of(qkv, frames, dim, count - 1));
        assert forall|head: int| 0 <= head < count implies then.heads[#[trigger] head_at(frames, dim, head)] == head_of(
            qkv,
            frames,
            dim,
            head,
        ) by {
            if head < count - 1 {
                assert(before.heads[head_at(frames, dim, head)] == head_of(qkv, frames, dim, head));
            }
        }
        assert forall|buffer: Sound| buffer != Sound::Scores implies #[trigger] then.at(buffer) == buffers.at(buffer) by {
            assert(before.at(buffer) == buffers.at(buffer));
        }
    }
}

proof fn attention_flows(buffers: Buffers, parts: EncoderParts, frames: int)
    requires
        0 <= frames <= usize::MAX,
    ensures
        ({
            let then = buffers.behind(sound::attention_steps(parts, frames));
            &&& then.at(Sound::HeadSecond) == attended(parts, frames, buffers.at(Sound::Signal))
            &&& then.at(Sound::Signal) == buffers.at(Sound::Signal)
        }),
{
    let rows = frames as usize;
    let dim = parts.features as int / 8;
    let norm = SoundStep::Norm { norm: HeadNorm::Norm1, input: Sound::Signal, output: Sound::Normalized, rows };
    let linear = SoundStep::Linear { linear: HeadLinear::Qkv, input: Sound::Normalized, output: Sound::Qkv, rows };
    let split = SoundStep::Split { rows, head_dim: dim as usize };
    let heads = sound::heads_steps(frames, dim, 8);
    let pool = SoundStep::Pool { rows, head_dim: dim as usize, outputs: parts.latent_channels };
    let project = SoundStep::Linear {
        linear: HeadLinear::AttentionProjection,
        input: Sound::HeadFirst,
        output: Sound::HeadSecond,
        rows,
    };
    assert(sound::attention_steps(parts, frames) =~= seq![norm, linear, split] + heads + seq![pool, project]);
    behind_both(buffers, seq![norm, linear, split] + heads, seq![pool, project]);
    behind_both(buffers, seq![norm, linear, split], heads);
    behind_three(buffers, norm, linear, split);
    let ready = buffers.after(norm).after(linear).after(split);
    let qkv = projected(HeadLinear::Qkv, frames, normed(HeadNorm::Norm1, frames, buffers.at(Sound::Signal)));
    heads_flow(ready, qkv, frames, dim, 8);
    let done = ready.behind(heads);
    behind_two(done, pool, project);
    assert(Seq::new(8, |head: int| done.heads[head_at(frames, dim, head)]) =~= Seq::new(
        8,
        |head: int| head_of(qkv, frames, dim, head),
    )) by {
        assert forall|head: int| 0 <= head < 8 implies done.heads[head_at(frames, dim, head)] == head_of(
            qkv,
            frames,
            dim,
            head,
        ) by {}
    }
    assert(done.at(Sound::Signal) == ready.at(Sound::Signal));
}

proof fn a_posterior_flows(buffers: Buffers, parts: EncoderParts, frames: int)
    requires
        0 <= frames <= usize::MAX,
    ensures
        buffers.behind(sound::project_steps(parts, frames)).at(Sound::Latent) == mean_of(
            parts,
            frames,
            buffers.at(Sound::Signal),
        ),
{
    let attention = sound::attention_steps(parts, frames);
    let mlp = sound::mlp_steps(parts, frames);
    let last = SoundStep::Product {
        layer: SoundLayer::MeanProjection,
        input: Sound::HeadSecond,
        output: Sound::Latent,
        first: 0,
        count: frames as usize,
    };
    behind_both(buffers, attention + mlp, seq![last]);
    behind_both(buffers, attention, mlp);
    attention_flows(buffers, parts, frames);
    let one = buffers.behind(attention);
    let (early, middle, late) = (mlp.subrange(0, 3), mlp.subrange(3, 6), mlp.subrange(6, 9));
    assert(mlp =~= early + middle + late + seq![mlp[9]]);
    behind_both(one, early + middle + late, seq![mlp[9]]);
    behind_both(one, early + middle, late);
    behind_both(one, early, middle);
    assert(early =~= seq![mlp[0], mlp[1], mlp[2]]);
    behind_three(one, mlp[0], mlp[1], mlp[2]);
    let two = one.behind(early);
    assert(middle =~= seq![mlp[3], mlp[4], mlp[5]]);
    behind_three(two, mlp[3], mlp[4], mlp[5]);
    let three = two.behind(middle);
    assert(late =~= seq![mlp[6], mlp[7], mlp[8]]);
    behind_three(three, mlp[6], mlp[7], mlp[8]);
    let four = three.behind(late);
    behind_one(four, mlp[9]);
    behind_one(four.after(mlp[9]), last);
}

/// Whatever the buffers held before but for the samples, the launches of a channel leave the mean of its posterior in
/// the latent: every residual unit is on top of what came into it, every row of a convolution comes from its own
/// columns, every head attends once, and the head's attention and its GeGLU are added once each.
pub proof fn a_channel_is_encoded(buffers: Buffers, parts: EncoderParts, frames: int, slice: usize)
    requires
        sound::is_loaded(parts),
        sound::is_encodable(parts, frames, slice),
        0 < frames,
    ensures
        buffers.behind(sound::channel_steps(parts, frames, slice)).at(Sound::Latent) == mean_of(
            parts,
            frames,
            features_of(parts, frames, buffers.at(Sound::Samples)),
        ),
{
    let samples = frames * 800;
    let input = sound::convolve_steps(
        SoundLayer::Input,
        parts.input,
        kept(parts.input.kernel, 1),
        Sound::Samples,
        Sound::Signal,
        samples,
        samples,
        slice,
    );
    let blocks = sound::blocks_steps(parts, samples, slice, 5);
    let snake = SoundStep::Snake {
        snake: Snake::Post,
        input: Sound::Signal,
        output: Sound::First,
        length: frames as usize,
    };
    let post = sound::convolve_steps(
        SoundLayer::Post,
        parts.post,
        kept(parts.post.kernel, 1),
        Sound::First,
        Sound::Signal,
        frames,
        frames,
        slice,
    );
    let head = sound::project_steps(parts, frames);
    assert(kept(parts.input.kernel, 1) == sound::keeping(parts.input.kernel, 1));
    assert(kept(parts.post.kernel, 1) == sound::keeping(parts.post.kernel, 1));
    assert(sound::channel_steps(parts, frames, slice) =~= input + blocks + seq![snake] + post + head);
    behind_both(buffers, input + blocks + seq![snake] + post, head);
    behind_both(buffers, input + blocks + seq![snake], post);
    behind_both(buffers, input + blocks, seq![snake]);
    behind_both(buffers, input, blocks);
    a_convolution_flows(
        buffers,
        SoundLayer::Input,
        parts.input,
        kept(parts.input.kernel, 1),
        Sound::Samples,
        Sound::Signal,
        samples,
        samples,
        slice,
    );
    let one = buffers.behind(input);
    blocks_flow(one, parts, frames, slice, 5);
    let two = one.behind(blocks);
    behind_one(two, snake);
    let three = two.after(snake);
    a_convolution_flows(
        three,
        SoundLayer::Post,
        parts.post,
        kept(parts.post.kernel, 1),
        Sound::First,
        Sound::Signal,
        frames,
        frames,
        slice,
    );
    a_posterior_flows(three.behind(post), parts, frames);
}

} // verus!
