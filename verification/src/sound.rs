//! What the audio encoder launches for a sound, one stereo channel at a time.
//!
//! The convolutions build their im2col columns in slices, so that buffer does not grow with the
//! length of the sound.
use crate::arithmetic;
use crate::audio_encoder;
use crate::audio_encoder::{
    AttentionProjection, BlockParts, CudaAudioEncoder, EncoderBlock, EncoderParts, Linear, ResidualUnit, BLOCKS, HEADS,
    MLP_RATIO, RESIDUAL_KERNEL, SAMPLES_PER_LATENT, UNITS,
};
use crate::audio_vae::Convolution;
use crate::checkpoint;
use crate::checkpoint::TensorInfo;
use crate::model::Error;
use crate::text;
use vstd::prelude::*;

verus! {

/// How a convolution walks over its input.
#[derive(Clone, Copy, Debug, PartialEq, Eq, Structural)]
pub struct Walk {
    pub dilation: usize,
    pub step: usize,
    pub padding: usize,
}

/// The places at which a kernel fits in a padded signal.
pub open spec fn positions(length: int, kernel: int, walk: Walk) -> int {
    (length + 2 * walk.padding - walk.dilation * (kernel - 1) - 1) / walk.step as int + 1
}

/// The walk of a block's strided convolution.
pub open spec fn folding(stride: usize) -> Walk {
    Walk { dilation: 1, step: stride, padding: arithmetic::ceil_div(stride as int, 2) as usize }
}

/// The walk of a convolution that keeps the length.
pub open spec fn keeping(kernel: usize, dilation: usize) -> Walk {
    Walk { dilation, step: 1, padding: (dilation * (kernel - 1) / 2) as usize }
}

/// A buffer of one encode call.
#[derive(Clone, Copy, Debug, PartialEq, Eq, Structural)]
pub enum Sound {
    /// The samples of one stereo channel.
    Samples,
    Signal,
    First,
    Second,
    Columns,
    Normalized,
    Qkv,
    Query,
    Key,
    Values,
    Scores,
    Attention,
    Latent,
    HeadFirst,
    HeadSecond,
}

/// A convolution of the encoder.
#[derive(Clone, Copy, Debug, PartialEq, Eq, Structural)]
pub enum SoundLayer {
    Input,
    Dilated { block: usize, unit: usize },
    Pointwise { block: usize, unit: usize },
    Downsample { block: usize },
    Post,
    MeanProjection,
}

/// The name of a block and what comes behind it, without the prefix of the encoder.
pub open spec fn block_letters(block: usize, rest: Seq<char>) -> Seq<char> {
    checkpoint::numbered("encoder.block."@, (block + 1) as nat, ""@) + rest
}

/// The name of a part of a residual unit.
pub open spec fn unit_letters(block: usize, unit: usize, rest: Seq<char>) -> Seq<char> {
    checkpoint::numbered(block_letters(block, ".block."@), unit as nat, ".block"@) + rest
}

fn block_name(block: usize, rest: &str) -> (name: String)
    requires
        block < usize::MAX,
    ensures
        name@ == block_letters(block, rest@),
{
    checkpoint::joined(checkpoint::numbered_name("encoder.block.", block + 1, "").as_str(), rest)
}

fn unit_name(block: usize, unit: usize, rest: &str) -> (name: String)
    requires
        block < usize::MAX,
    ensures
        name@ == unit_letters(block, unit, rest@),
{
    let unit = checkpoint::numbered_name(block_name(block, ".block.").as_str(), unit, ".block");
    checkpoint::joined(unit.as_str(), rest)
}

impl SoundLayer {
    pub open spec fn letters(self) -> Seq<char> {
        match self {
            SoundLayer::Input => "encoder.block.0"@,
            SoundLayer::Dilated { block, unit } => unit_letters(block, unit, ".1"@),
            SoundLayer::Pointwise { block, unit } => unit_letters(block, unit, ".3"@),
            SoundLayer::Downsample { block } => block_letters(block, ".block.4"@),
            SoundLayer::Post => "encoder.block.7"@,
            SoundLayer::MeanProjection => "mean_proj"@,
        }
    }

    /// The name of the convolution, without the prefix of the encoder.
    pub fn name(self) -> (name: String)
        requires
            self matches SoundLayer::Dilated { block, .. } ==> block < usize::MAX,
            self matches SoundLayer::Pointwise { block, .. } ==> block < usize::MAX,
            self matches SoundLayer::Downsample { block } ==> block < usize::MAX,
        ensures
            name@ == self.letters(),
    {
        match self {
            SoundLayer::Input => String::from_str("encoder.block.0"),
            SoundLayer::Dilated { block, unit } => unit_name(block, unit, ".1"),
            SoundLayer::Pointwise { block, unit } => unit_name(block, unit, ".3"),
            SoundLayer::Downsample { block } => block_name(block, ".block.4"),
            SoundLayer::Post => String::from_str("encoder.block.7"),
            SoundLayer::MeanProjection => String::from_str("mean_proj"),
        }
    }
}

/// A Snake of the encoder.
#[derive(Clone, Copy, Debug, PartialEq, Eq, Structural)]
pub enum Snake {
    Before { block: usize, unit: usize },
    Between { block: usize, unit: usize },
    Block { block: usize },
    Post,
}

impl Snake {
    pub open spec fn letters(self) -> Seq<char> {
        match self {
            Snake::Before { block, unit } => unit_letters(block, unit, ".0"@),
            Snake::Between { block, unit } => unit_letters(block, unit, ".2"@),
            Snake::Block { block } => block_letters(block, ".block.3"@),
            Snake::Post => "encoder.block.6"@,
        }
    }

    /// The name of the Snake, without the prefix of the encoder.
    pub fn name(self) -> (name: String)
        requires
            self matches Snake::Before { block, .. } ==> block < usize::MAX,
            self matches Snake::Between { block, .. } ==> block < usize::MAX,
            self matches Snake::Block { block } ==> block < usize::MAX,
        ensures
            name@ == self.letters(),
    {
        match self {
            Snake::Before { block, unit } => unit_name(block, unit, ".0"),
            Snake::Between { block, unit } => unit_name(block, unit, ".2"),
            Snake::Block { block } => block_name(block, ".block.3"),
            Snake::Post => String::from_str("encoder.block.6"),
        }
    }
}

/// A layer norm of the head.
#[derive(Clone, Copy, Debug, PartialEq, Eq, Structural)]
pub enum HeadNorm {
    Norm1,
    Norm3,
    Norm2,
    Mlp,
}

impl HeadNorm {
    pub open spec fn letters(self) -> Seq<char> {
        match self {
            HeadNorm::Norm1 => "pre_block.norm1"@,
            HeadNorm::Norm3 => "pre_block.norm3"@,
            HeadNorm::Norm2 => "pre_block.norm2"@,
            HeadNorm::Mlp => "pre_block.mlp.norm"@,
        }
    }

    /// The name of the norm, without the prefix of the encoder.
    pub fn name(self) -> (name: &'static str)
        ensures
            name@ == self.letters(),
    {
        match self {
            HeadNorm::Norm1 => "pre_block.norm1",
            HeadNorm::Norm3 => "pre_block.norm3",
            HeadNorm::Norm2 => "pre_block.norm2",
            HeadNorm::Mlp => "pre_block.mlp.norm",
        }
    }
}

/// A linear layer of the head.
#[derive(Clone, Copy, Debug, PartialEq, Eq, Structural)]
pub enum HeadLinear {
    Qkv,
    AttentionProjection,
    Projection,
    Gate,
    Value,
    Output,
}

impl HeadLinear {
    pub open spec fn letters(self) -> Seq<char> {
        match self {
            HeadLinear::Qkv => "pre_block.attn.qkv"@,
            HeadLinear::AttentionProjection => "pre_block.attn.proj"@,
            HeadLinear::Projection => "pre_block.proj"@,
            HeadLinear::Gate => "pre_block.mlp.w0"@,
            HeadLinear::Value => "pre_block.mlp.w1"@,
            HeadLinear::Output => "pre_block.mlp.w2"@,
        }
    }

    /// The name of the layer, without the prefix of the encoder.
    pub fn name(self) -> (name: &'static str)
        ensures
            name@ == self.letters(),
    {
        match self {
            HeadLinear::Qkv => "pre_block.attn.qkv",
            HeadLinear::AttentionProjection => "pre_block.attn.proj",
            HeadLinear::Projection => "pre_block.proj",
            HeadLinear::Gate => "pre_block.mlp.w0",
            HeadLinear::Value => "pre_block.mlp.w1",
            HeadLinear::Output => "pre_block.mlp.w2",
        }
    }
}

/// A launch of an encode call.
#[allow(inconsistent_fields)]
#[derive(Clone, Copy, Debug, PartialEq, Eq, Structural)]
pub enum SoundStep {
    /// The im2col columns of `count` output rows from row `first` on.
    Columns { layer: SoundLayer, walk: Walk, input: Sound, length: usize, first: usize, count: usize },
    /// Rows through the weight and the bias of a convolution, into the output rows from row `first` on.
    Product { layer: SoundLayer, input: Sound, output: Sound, first: usize, count: usize },
    Snake { snake: Snake, input: Sound, output: Sound, length: usize },
    Add { output: Sound, first: Sound, second: Sound, count: usize },
    Norm { norm: HeadNorm, input: Sound, output: Sound, rows: usize },
    Linear { linear: HeadLinear, input: Sound, output: Sound, rows: usize },
    /// The queries, keys and values of every head.
    Split { rows: usize, head_dim: usize },
    /// The scores of a head, whose values begin at byte `offset`.
    Scores { offset: usize, rows: usize, head_dim: usize },
    Softmax { rows: usize, head_dim: usize },
    /// The values of a head weighted by its scores.
    Attend { offset: usize, rows: usize, head_dim: usize },
    /// The heads pooled onto the latent channels.
    Pool { rows: usize, head_dim: usize, outputs: usize },
    Geglu { count: usize },
}

/// Rows of the columns that are built at a time.
pub open spec fn slice_rows(slice: usize, features: int) -> int {
    arithmetic::max(slice as int / features, 1)
}

/// Values of the columns that are built at a time.
pub open spec fn column_values(slice: usize, rows: int, features: int) -> int {
    arithmetic::min(slice_rows(slice, features), rows) * features
}

/// The columns that are built at a time are no more than a slice or one row, however long the sound is.
pub proof fn columns_do_not_grow_with_the_sound(slice: usize, rows: int, features: int)
    requires
        0 <= rows,
        0 < features,
    ensures
        0 <= column_values(slice, rows, features) <= arithmetic::max(slice as int, features),
{
    let held = slice_rows(slice, features);
    let count = arithmetic::min(held, rows);
    vstd::arithmetic::div_mod::lemma_fundamental_div_mod(slice as int, features);
    assert(slice as int / features * features <= slice) by (nonlinear_arith)
        requires
            slice as int == features * (slice as int / features) + slice as int % features,
            slice as int % features >= 0,
    ;
    vstd::arithmetic::div_mod::lemma_div_pos_is_pos(slice as int, features);
    assert(0 <= count * features <= held * features) by (nonlinear_arith)
        requires
            0 <= count <= held,
            0 < features,
    ;
    if held == 1 {
        assert(held * features == features);
    }
}

/// The slices of a convolution from row `first` on.
pub open spec fn slices(
    layer: SoundLayer,
    walk: Walk,
    input: Sound,
    output: Sound,
    length: int,
    slice: int,
    rows: int,
    first: int,
) -> Seq<SoundStep>
    decreases rows - first,
{
    if first >= rows || slice <= 0 {
        Seq::empty()
    } else {
        let count = arithmetic::min(slice, rows - first);
        seq![
            SoundStep::Columns {
                layer,
                walk,
                input,
                length: length as usize,
                first: first as usize,
                count: count as usize,
            },
            SoundStep::Product { layer, input: Sound::Columns, output, first: first as usize, count: count as usize },
        ] + slices(layer, walk, input, output, length, slice, rows, first + count)
    }
}

/// A convolution of `length` samples into `rows`.
pub open spec fn convolve_steps(
    layer: SoundLayer,
    convolution: Convolution,
    walk: Walk,
    input: Sound,
    output: Sound,
    length: int,
    rows: int,
    slice: usize,
) -> Seq<SoundStep> {
    if convolution.kernel == 1 {
        seq![SoundStep::Product { layer, input, output, first: 0, count: rows as usize }]
    } else {
        slices(
            layer,
            walk,
            input,
            output,
            length,
            slice_rows(slice, convolution.kernel * convolution.inputs),
            rows,
            0,
        )
    }
}

fn convolve(
    layer: SoundLayer,
    convolution: &Convolution,
    walk: Walk,
    input: Sound,
    output: Sound,
    length: usize,
    rows: usize,
    slice: usize,
    steps: &mut Vec<SoundStep>,
)
    requires
        convolution.kernel == 1 || 0 < convolution.kernel * convolution.inputs <= usize::MAX,
    ensures
        final(steps)@ == old(steps)@ + convolve_steps(
            layer,
            *convolution,
            walk,
            input,
            output,
            length as int,
            rows as int,
            slice,
        ),
{
    let ghost before = steps@;
    if convolution.kernel == 1 {
        steps.push(SoundStep::Product { layer, input, output, first: 0, count: rows });
    } else {
        let features: usize = convolution.kernel * convolution.inputs;
        let held: usize = arithmetic::greatest(slice / features, 1);
        let mut first: usize = 0;
        let ghost all = slices(layer, walk, input, output, length as int, held as int, rows as int, 0);
        while first < rows
            invariant
                first <= rows,
                1 <= held,
                steps@ + slices(
                    layer,
                    walk,
                    input,
                    output,
                    length as int,
                    held as int,
                    rows as int,
                    first as int,
                ) == before + all,
            decreases rows - first,
        {
            let ghost so_far = steps@;
            let count: usize = arithmetic::least(held, rows - first);
            steps.push(SoundStep::Columns { layer, walk, input, length, first, count });
            steps.push(SoundStep::Product { layer, input: Sound::Columns, output, first, count });
            proof {
                let rest = slices(
                    layer,
                    walk,
                    input,
                    output,
                    length as int,
                    held as int,
                    rows as int,
                    first + count,
                );
                assert(steps@ + rest =~= so_far + slices(
                    layer,
                    walk,
                    input,
                    output,
                    length as int,
                    held as int,
                    rows as int,
                    first as int,
                ));
            }
            first = first + count;
        }
        assert(steps@ + Seq::<SoundStep>::empty() =~= steps@);
    }
    assert(steps@ =~= before + convolve_steps(
        layer,
        *convolution,
        walk,
        input,
        output,
        length as int,
        rows as int,
        slice,
    ));
}

/// Samples behind the first `blocks` blocks.
pub open spec fn length_after(samples: int, blocks: int) -> int {
    samples / audio_encoder::folded(blocks)
}

/// The channels that come into a block.
pub open spec fn channels_before(parts: EncoderParts, block: int) -> usize {
    if block <= 0 {
        parts.input.outputs
    } else {
        parts.blocks[block - 1].downsample.outputs
    }
}

/// One residual unit of a block.
pub open spec fn unit_steps(
    parts: ResidualUnit,
    block: int,
    unit: int,
    length: int,
    channels: int,
    slice: usize,
) -> Seq<SoundStep> {
    let (b, u) = (block as usize, unit as usize);
    seq![
        SoundStep::Snake {
            snake: Snake::Before { block: b, unit: u },
            input: Sound::Signal,
            output: Sound::First,
            length: length as usize,
        },
    ] + convolve_steps(
        SoundLayer::Dilated { block: b, unit: u },
        parts.dilated,
        keeping(parts.dilated.kernel, parts.dilation),
        Sound::First,
        Sound::Second,
        length,
        length,
        slice,
    ) + seq![
        SoundStep::Snake {
            snake: Snake::Between { block: b, unit: u },
            input: Sound::Second,
            output: Sound::First,
            length: length as usize,
        },
    ] + convolve_steps(
        SoundLayer::Pointwise { block: b, unit: u },
        parts.pointwise,
        keeping(parts.pointwise.kernel, 1),
        Sound::First,
        Sound::Second,
        length,
        length,
        slice,
    ) + seq![
        SoundStep::Add {
            output: Sound::Signal,
            first: Sound::Signal,
            second: Sound::Second,
            count: (length * channels) as usize,
        },
    ]
}

/// The first `count` residual units of a block.
pub open spec fn units_steps(
    units: Seq<ResidualUnit>,
    block: int,
    length: int,
    channels: int,
    slice: usize,
    count: int,
) -> Seq<SoundStep>
    decreases count,
{
    if count <= 0 {
        Seq::empty()
    } else {
        units_steps(units, block, length, channels, slice, count - 1) + unit_steps(
            units[count - 1],
            block,
            count - 1,
            length,
            channels,
            slice,
        )
    }
}

/// What follows the units of a block.
pub open spec fn fold_steps(parts: BlockParts, block: int, length: int, slice: usize) -> Seq<SoundStep> {
    seq![
        SoundStep::Snake {
            snake: Snake::Block { block: block as usize },
            input: Sound::Signal,
            output: Sound::First,
            length: length as usize,
        },
    ] + convolve_steps(
        SoundLayer::Downsample { block: block as usize },
        parts.downsample,
        folding(parts.stride),
        Sound::First,
        Sound::Signal,
        length,
        positions(length, parts.downsample.kernel as int, folding(parts.stride)),
        slice,
    )
}

/// The first `count` blocks.
pub open spec fn blocks_steps(parts: EncoderParts, samples: int, slice: usize, count: int) -> Seq<SoundStep>
    decreases count,
{
    if count <= 0 {
        Seq::empty()
    } else {
        let block = count - 1;
        let length = length_after(samples, block);
        blocks_steps(parts, samples, slice, block) + units_steps(
            parts.blocks[block].units,
            block,
            length,
            channels_before(parts, block) as int,
            slice,
            UNITS as int,
        ) + fold_steps(parts.blocks[block], block, length, slice)
    }
}

/// The launches of one head.
pub open spec fn head_steps(frames: int, head_dim: int, head: int) -> Seq<SoundStep> {
    let offset = (head * frames * head_dim * 4) as usize;
    let (rows, dim) = (frames as usize, head_dim as usize);
    seq![
        SoundStep::Scores { offset, rows, head_dim: dim },
        SoundStep::Softmax { rows, head_dim: dim },
        SoundStep::Attend { offset, rows, head_dim: dim },
    ]
}

/// The launches of the first `count` heads.
pub open spec fn heads_steps(frames: int, head_dim: int, count: int) -> Seq<SoundStep>
    decreases count,
{
    if count <= 0 {
        Seq::empty()
    } else {
        heads_steps(frames, head_dim, count - 1) + head_steps(frames, head_dim, count - 1)
    }
}

/// The attention of the head.
pub open spec fn attention_steps(parts: EncoderParts, frames: int) -> Seq<SoundStep> {
    let rows = frames as usize;
    let head_dim = parts.features as int / HEADS as int;
    seq![
        SoundStep::Norm { norm: HeadNorm::Norm1, input: Sound::Signal, output: Sound::Normalized, rows },
        SoundStep::Linear { linear: HeadLinear::Qkv, input: Sound::Normalized, output: Sound::Qkv, rows },
        SoundStep::Split { rows, head_dim: head_dim as usize },
    ] + heads_steps(frames, head_dim, HEADS as int) + seq![
        SoundStep::Pool { rows, head_dim: head_dim as usize, outputs: parts.latent_channels },
        SoundStep::Linear {
            linear: HeadLinear::AttentionProjection,
            input: Sound::HeadFirst,
            output: Sound::HeadSecond,
            rows,
        },
    ]
}

/// The rest of the head behind its attention, but for the mean projection.
pub open spec fn mlp_steps(parts: EncoderParts, frames: int) -> Seq<SoundStep> {
    let rows = frames as usize;
    let count = (frames * parts.latent_channels) as usize;
    seq![
        SoundStep::Norm { norm: HeadNorm::Norm3, input: Sound::Signal, output: Sound::Normalized, rows },
        SoundStep::Linear { linear: HeadLinear::Projection, input: Sound::Normalized, output: Sound::HeadFirst, rows },
        SoundStep::Add { output: Sound::HeadFirst, first: Sound::HeadFirst, second: Sound::HeadSecond, count },
        SoundStep::Norm { norm: HeadNorm::Norm2, input: Sound::HeadFirst, output: Sound::HeadSecond, rows },
        SoundStep::Norm { norm: HeadNorm::Mlp, input: Sound::HeadSecond, output: Sound::Latent, rows },
        SoundStep::Linear { linear: HeadLinear::Gate, input: Sound::Latent, output: Sound::Qkv, rows },
        SoundStep::Linear { linear: HeadLinear::Value, input: Sound::Latent, output: Sound::Query, rows },
        SoundStep::Geglu { count: (frames * (MLP_RATIO * parts.latent_channels)) as usize },
        SoundStep::Linear { linear: HeadLinear::Output, input: Sound::Key, output: Sound::HeadSecond, rows },
        SoundStep::Add { output: Sound::HeadSecond, first: Sound::HeadSecond, second: Sound::HeadFirst, count },
    ]
}

/// The posterior head on the features, leaving the mean in the latent.
pub open spec fn project_steps(parts: EncoderParts, frames: int) -> Seq<SoundStep> {
    attention_steps(parts, frames) + mlp_steps(parts, frames) + seq![
        SoundStep::Product {
            layer: SoundLayer::MeanProjection,
            input: Sound::HeadSecond,
            output: Sound::Latent,
            first: 0,
            count: frames as usize,
        },
    ]
}

/// Every launch for one stereo channel.
pub open spec fn channel_steps(parts: EncoderParts, frames: int, slice: usize) -> Seq<SoundStep> {
    let samples = frames * SAMPLES_PER_LATENT;
    convolve_steps(
        SoundLayer::Input,
        parts.input,
        keeping(parts.input.kernel, 1),
        Sound::Samples,
        Sound::Signal,
        samples,
        samples,
        slice,
    ) + blocks_steps(parts, samples, slice, BLOCKS as int) + seq![
        SoundStep::Snake {
            snake: Snake::Post,
            input: Sound::Signal,
            output: Sound::First,
            length: frames as usize,
        },
    ] + convolve_steps(
        SoundLayer::Post,
        parts.post,
        keeping(parts.post.kernel, 1),
        Sound::First,
        Sound::Signal,
        frames,
        frames,
        slice,
    ) + project_steps(parts, frames)
}

/// Values of the widest signal up to the first `count` blocks.
pub open spec fn signal_values(parts: EncoderParts, samples: int, count: int) -> int
    decreases count,
{
    if count <= 0 {
        samples * parts.input.outputs
    } else {
        arithmetic::max(
            signal_values(parts, samples, count - 1),
            length_after(samples, count) * parts.blocks[count - 1].downsample.outputs,
        )
    }
}

/// Values of the widest columns up to the first `count` blocks.
pub open spec fn widest_columns(parts: EncoderParts, samples: int, slice: usize, count: int) -> int
    decreases count,
{
    if count <= 0 {
        column_values(slice, samples, parts.input.kernel * parts.input.inputs)
    } else {
        let channels = channels_before(parts, count - 1) as int;
        let length = length_after(samples, count - 1);
        let block = parts.blocks[count - 1];
        arithmetic::max(
            arithmetic::max(
                widest_columns(parts, samples, slice, count - 1),
                column_values(slice, length, RESIDUAL_KERNEL * channels),
            ),
            column_values(slice, length / block.stride as int, block.downsample.kernel * channels),
        )
    }
}

/// Values of the widest columns.
pub open spec fn all_columns(parts: EncoderParts, samples: int, slice: usize) -> int {
    let count = parts.blocks.len() as int;
    arithmetic::max(
        widest_columns(parts, samples, slice, count),
        column_values(
            slice,
            length_after(samples, count),
            parts.post.kernel * channels_before(parts, count),
        ),
    )
}

/// Bytes of the buffers of one encode call.
#[derive(Clone, Copy, Debug, PartialEq, Eq, Structural)]
pub struct SoundWorkspace {
    /// Each of the signals.
    pub signal: usize,
    pub columns: usize,
    pub normalized: usize,
    pub qkv: usize,
    /// Each of the queries, the keys, the values and the attention.
    pub heads: usize,
    pub scores: usize,
    /// Each of the latent and the head's two other rows of latent channels.
    pub latent: usize,
}

/// Whether the shapes are those that a load leaves.
pub open spec fn is_loaded(parts: EncoderParts) -> bool {
    &&& audio_encoder::refusal(parts) is None
    &&& parts.blocks.len() == BLOCKS
    &&& forall|i: int|
        0 <= i < BLOCKS ==> (#[trigger] parts.blocks[i]).stride == audio_encoder::stride_of(i)
            && parts.blocks[i].units.len() == UNITS
    &&& forall|i: int, unit: int|
        0 <= i < BLOCKS && 0 <= unit < UNITS ==> (#[trigger] parts.blocks[i].units[unit]).dilation
            == audio_encoder::dilation_of(unit)
    &&& parts.input.outputs > 0
    &&& parts.input.kernel > 0
    &&& parts.post.kernel > 0
}

/// Whether the values of an encode call of this many latent frames can be counted.
pub open spec fn is_encodable(parts: EncoderParts, frames: int, slice: usize) -> bool {
    let samples = frames * SAMPLES_PER_LATENT;
    &&& samples <= usize::MAX
    &&& signal_values(parts, samples, BLOCKS as int) * 4 <= usize::MAX
    &&& all_columns(parts, samples, slice) * 4 <= usize::MAX
    &&& parts.input.kernel * parts.input.inputs <= usize::MAX
    &&& parts.post.kernel * parts.post.inputs <= usize::MAX
    &&& RESIDUAL_KERNEL * parts.post.inputs <= usize::MAX
    &&& frames * 3 * parts.features * 4 <= usize::MAX
    &&& frames * frames * 4 <= usize::MAX
    &&& frames * parts.latent_channels * 4 <= usize::MAX
    &&& frames * (MLP_RATIO * parts.latent_channels) <= usize::MAX
    &&& MLP_RATIO * parts.latent_channels <= usize::MAX
}

/// Folding keeps whole numbers of samples: what the blocks leave of whole latent frames, and that their strided
/// convolutions make it.
pub proof fn a_fold_divides_the_samples(frames: int, block: int)
    requires
        0 < frames,
        0 <= block < BLOCKS,
    ensures
        ({
            let stride = audio_encoder::stride_of(block);
            let samples = frames * SAMPLES_PER_LATENT;
            let (before, after) = (length_after(samples, block), length_after(samples, block + 1));
            &&& 0 < after < before <= samples
            &&& before == after * stride
            &&& before / stride as int == after
            &&& positions(before, 2 * stride, folding(stride)) == after
        }),
{
    audio_encoder::folds();
    let samples = frames * SAMPLES_PER_LATENT;
    if block == 0 {
        assert(length_after(samples, 0) == frames * 800);
        assert(length_after(samples, 1) == frames * 400);
        a_stride_makes_one(frames * 400, 2);
    } else if block == 1 {
        assert(length_after(samples, 1) == frames * 400);
        assert(length_after(samples, 2) == frames * 100);
        a_stride_makes_one(frames * 100, 4);
    } else if block == 2 {
        assert(length_after(samples, 2) == frames * 100);
        assert(length_after(samples, 3) == frames * 25);
        a_stride_makes_one(frames * 25, 4);
    } else if block == 3 {
        assert(length_after(samples, 3) == frames * 25);
        assert(length_after(samples, 4) == frames * 5);
        a_stride_makes_one(frames * 5, 5);
    } else {
        assert(length_after(samples, 4) == frames * 5);
        assert(length_after(samples, 5) == frames);
        a_stride_makes_one(frames, 5);
    }
}

/// A strided convolution makes one sample of each stride.
proof fn a_stride_makes_one(after: int, stride: usize)
    requires
        0 < after,
        stride == 2 || stride == 4 || stride == 5,
    ensures
        after * stride / stride as int == after,
        positions(after * stride, 2 * stride, folding(stride)) == after,
{
    let walk = folding(stride);
    if stride == 2 {
        assert(walk.padding == 1);
        assert((after * 2 + 2 - 3 - 1) / 2 + 1 == after);
    } else if stride == 4 {
        assert(walk.padding == 2);
        assert((after * 4 + 4 - 7 - 1) / 4 + 1 == after);
    } else {
        assert(walk.padding == 3);
        assert((after * 5 + 6 - 9 - 1) / 5 + 1 == after);
    }
}

/// The blocks leave one sample for each latent frame.
pub proof fn the_encoder_gives_its_frames(frames: int)
    ensures
        length_after(frames * SAMPLES_PER_LATENT, BLOCKS as int) == frames,
{
    audio_encoder::folds();
}

proof fn doubling_grows(channels: int, times: int, all: int)
    requires
        0 < channels,
        0 <= times <= all,
    ensures
        0 < audio_encoder::doubled(channels, times) <= audio_encoder::doubled(channels, all),
    decreases all,
{
    if times < all {
        doubling_grows(channels, times, all - 1);
    } else if all > 0 {
        doubling_grows(channels, all - 1, all - 1);
    }
}

/// What comes into a block of a loaded encoder.
proof fn a_block_is_known(parts: EncoderParts, block: int)
    requires
        is_loaded(parts),
        0 <= block <= BLOCKS,
    ensures
        channels_before(parts, block) == audio_encoder::doubled(parts.input.outputs as int, block),
        0 < channels_before(parts, block) <= parts.post.inputs,
        block < BLOCKS ==> {
            &&& audio_encoder::block_is_valid(parts.blocks[block], channels_before(parts, block) as int)
            &&& parts.blocks[block].stride == audio_encoder::stride_of(block)
            &&& parts.blocks[block].units.len() == UNITS
            &&& 2 * channels_before(parts, block) <= parts.post.inputs
        },
        block == BLOCKS ==> parts.post.inputs == channels_before(parts, block),
{
    let first = parts.input.outputs as int;
    doubling_grows(first, block, BLOCKS as int);
    if block > 0 {
        assert(audio_encoder::block_is_valid(parts.blocks[block - 1], audio_encoder::doubled(first, block - 1)));
    }
    if block < BLOCKS {
        doubling_grows(first, block + 1, BLOCKS as int);
        assert(audio_encoder::block_is_valid(parts.blocks[block], audio_encoder::doubled(first, block)));
    }
}

proof fn signals_grow(parts: EncoderParts, samples: int, count: int, all: int)
    requires
        0 <= count <= all,
    ensures
        signal_values(parts, samples, count) <= signal_values(parts, samples, all),
    decreases all,
{
    if count < all {
        signals_grow(parts, samples, count, all - 1);
    }
}

proof fn columns_grow(parts: EncoderParts, samples: int, slice: usize, count: int, all: int)
    requires
        0 <= count <= all,
    ensures
        widest_columns(parts, samples, slice, count) <= widest_columns(parts, samples, slice, all),
    decreases all,
{
    if count < all {
        columns_grow(parts, samples, slice, count, all - 1);
    }
}

/// What comes into a block is no more than the signals hold.
proof fn a_block_has_room(parts: EncoderParts, frames: int, block: int)
    requires
        is_loaded(parts),
        0 < frames,
        0 <= block <= BLOCKS,
    ensures
        ({
            let samples = frames * SAMPLES_PER_LATENT;
            0 <= length_after(samples, block) * channels_before(parts, block) <= signal_values(
                parts,
                samples,
                BLOCKS as int,
            )
        }),
        0 < length_after(frames * SAMPLES_PER_LATENT, block) <= frames * SAMPLES_PER_LATENT,
{
    let samples = frames * SAMPLES_PER_LATENT;
    signals_grow(parts, samples, block, BLOCKS as int);
    a_block_is_known(parts, block);
    audio_encoder::folds();
    if block < BLOCKS {
        a_fold_divides_the_samples(frames, block);
    }
    let (length, channels) = (length_after(samples, block), channels_before(parts, block) as int);
    assert(0 <= length * channels) by (nonlinear_arith)
        requires
            0 <= length,
            0 <= channels,
    ;
}

fn keep(kernel: usize, dilation: usize) -> (walk: Walk)
    requires
        1 <= kernel,
        dilation * (kernel - 1) <= usize::MAX,
    ensures
        walk == keeping(kernel, dilation),
{
    Walk { dilation, step: 1, padding: dilation * (kernel - 1) / 2 }
}

fn unit(
    parts: &ResidualUnit,
    block: usize,
    index: usize,
    length: usize,
    channels: usize,
    slice: usize,
    steps: &mut Vec<SoundStep>,
)
    requires
        parts.dilated.kernel == RESIDUAL_KERNEL,
        0 < RESIDUAL_KERNEL * parts.dilated.inputs <= usize::MAX,
        parts.dilation <= 9,
        parts.pointwise.kernel == 1,
        length * channels <= usize::MAX,
    ensures
        final(steps)@ == old(steps)@ + unit_steps(
            *parts,
            block as int,
            index as int,
            length as int,
            channels as int,
            slice,
        ),
{
    let ghost before = steps@;
    steps.push(
        SoundStep::Snake {
            snake: Snake::Before { block, unit: index },
            input: Sound::Signal,
            output: Sound::First,
            length,
        },
    );
    convolve(
        SoundLayer::Dilated { block, unit: index },
        &parts.dilated,
        keep(parts.dilated.kernel, parts.dilation),
        Sound::First,
        Sound::Second,
        length,
        length,
        slice,
        steps,
    );
    steps.push(
        SoundStep::Snake {
            snake: Snake::Between { block, unit: index },
            input: Sound::Second,
            output: Sound::First,
            length,
        },
    );
    convolve(
        SoundLayer::Pointwise { block, unit: index },
        &parts.pointwise,
        keep(parts.pointwise.kernel, 1),
        Sound::First,
        Sound::Second,
        length,
        length,
        slice,
        steps,
    );
    steps.push(
        SoundStep::Add {
            output: Sound::Signal,
            first: Sound::Signal,
            second: Sound::Second,
            count: length * channels,
        },
    );
    assert(steps@ =~= before + unit_steps(
        *parts,
        block as int,
        index as int,
        length as int,
        channels as int,
        slice,
    ));
}

fn units(
    units: &Vec<ResidualUnit>,
    block: usize,
    length: usize,
    channels: usize,
    slice: usize,
    steps: &mut Vec<SoundStep>,
)
    requires
        units@.len() == UNITS,
        0 < RESIDUAL_KERNEL * channels <= usize::MAX,
        length * channels <= usize::MAX,
        forall|i: int|
            0 <= i < UNITS ==> (#[trigger] units@[i]).dilated.kernel == RESIDUAL_KERNEL && units@[i].dilated.inputs
                == channels && units@[i].pointwise.kernel == 1 && units@[i].dilation <= 9,
    ensures
        final(steps)@ == old(steps)@ + units_steps(
            units@,
            block as int,
            length as int,
            channels as int,
            slice,
            UNITS as int,
        ),
{
    let ghost before = steps@;
    assert(before + Seq::<SoundStep>::empty() =~= before);
    for index in 0..UNITS
        invariant
            units@.len() == UNITS,
            0 < RESIDUAL_KERNEL * channels <= usize::MAX,
            length * channels <= usize::MAX,
            forall|i: int|
                0 <= i < UNITS ==> (#[trigger] units@[i]).dilated.kernel == RESIDUAL_KERNEL && units@[i].dilated.inputs
                    == channels && units@[i].pointwise.kernel == 1 && units@[i].dilation <= 9,
            steps@ == before + units_steps(
                units@,
                block as int,
                length as int,
                channels as int,
                slice,
                index as int,
            ),
    {
        unit(&units[index], block, index, length, channels, slice, steps);
        assert(steps@ =~= before + units_steps(
            units@,
            block as int,
            length as int,
            channels as int,
            slice,
            index + 1,
        ));
    }
}

fn fold(block: &EncoderBlock, index: usize, length: usize, rows: usize, slice: usize, steps: &mut Vec<SoundStep>)
    requires
        1 < block.stride < 100,
        0 < block.downsample.kernel * block.downsample.inputs <= usize::MAX,
        rows == positions(length as int, block.downsample.kernel as int, folding(block.stride)),
    ensures
        final(steps)@ == old(steps)@ + fold_steps(block@, index as int, length as int, slice),
{
    let ghost before = steps@;
    steps.push(
        SoundStep::Snake {
            snake: Snake::Block { block: index },
            input: Sound::Signal,
            output: Sound::First,
            length,
        },
    );
    let walk = Walk { dilation: 1, step: block.stride, padding: arithmetic::units(block.stride, 2) };
    proof {
        arithmetic::ceil_div_is_least(block.stride as int, 2);
    }
    convolve(
        SoundLayer::Downsample { block: index },
        &block.downsample,
        walk,
        Sound::First,
        Sound::Signal,
        length,
        rows,
        slice,
        steps,
    );
    assert(steps@ =~= before + fold_steps(block@, index as int, length as int, slice));
}

fn columns(slice: usize, rows: usize, features: usize) -> (values: usize)
    requires
        0 < features,
    ensures
        values == column_values(slice, rows as int, features as int),
{
    proof {
        columns_do_not_grow_with_the_sound(slice, rows as int, features as int);
    }
    arithmetic::least(arithmetic::greatest(slice / features, 1), rows) * features
}

/// The attention of the head.
fn attention(features: usize, latent_channels: usize, frames: usize, steps: &mut Vec<SoundStep>, Ghost(parts): Ghost<
    EncoderParts,
>)
    requires
        features == parts.features,
        latent_channels == parts.latent_channels,
        frames * SAMPLES_PER_LATENT <= usize::MAX,
        frames * features * 4 <= usize::MAX,
    ensures
        final(steps)@ == old(steps)@ + attention_steps(parts, frames as int),
{
    let ghost before = steps@;
    let head_dim: usize = features / HEADS;
    let rows: usize = frames;
    steps.push(SoundStep::Norm { norm: HeadNorm::Norm1, input: Sound::Signal, output: Sound::Normalized, rows });
    steps.push(SoundStep::Linear { linear: HeadLinear::Qkv, input: Sound::Normalized, output: Sound::Qkv, rows });
    steps.push(SoundStep::Split { rows, head_dim });
    let ghost start = steps@;
    assert(start + Seq::<SoundStep>::empty() =~= start);
    for head in 0..HEADS
        invariant
            rows == frames,
            head_dim == features / HEADS,
            frames * SAMPLES_PER_LATENT <= usize::MAX,
            frames * features * 4 <= usize::MAX,
            steps@ == start + heads_steps(frames as int, head_dim as int, head as int),
    {
        proof {
            a_head_is_countable(frames as int, features as int, head as int);
        }
        let offset: usize = head * frames * head_dim * 4;
        steps.push(SoundStep::Scores { offset, rows, head_dim });
        steps.push(SoundStep::Softmax { rows, head_dim });
        steps.push(SoundStep::Attend { offset, rows, head_dim });
        assert(steps@ =~= start + heads_steps(frames as int, head_dim as int, head + 1));
    }
    steps.push(SoundStep::Pool { rows, head_dim, outputs: latent_channels });
    steps.push(
        SoundStep::Linear {
            linear: HeadLinear::AttentionProjection,
            input: Sound::HeadFirst,
            output: Sound::HeadSecond,
            rows,
        },
    );
    assert(steps@ =~= before + attention_steps(parts, frames as int));
}

/// The values of a head lie inside those of all.
proof fn a_head_is_countable(frames: int, features: int, head: int)
    requires
        0 <= frames,
        0 <= features,
        0 <= head < HEADS,
    ensures
        0 <= head * frames,
        head * frames <= HEADS * frames,
        0 <= head * frames * (features / HEADS as int),
        head * frames * (features / HEADS as int) + frames * (features / HEADS as int) <= HEADS * (frames * (features
            / HEADS as int)) <= frames * features,
{
    let dim = features / HEADS as int;
    assert(0 <= head * frames) by (nonlinear_arith)
        requires
            0 <= head,
            0 <= frames,
    ;
    assert(head * frames <= HEADS * frames) by (nonlinear_arith)
        requires
            head < HEADS,
            0 <= frames,
    ;
    assert(0 <= head * frames * dim) by (nonlinear_arith)
        requires
            0 <= head * frames,
            0 <= dim,
    ;
    assert(head * frames * dim + frames * dim <= HEADS * (frames * dim)) by (nonlinear_arith)
        requires
            head + 1 <= HEADS,
            0 <= frames,
            0 <= dim,
    ;
    assert(HEADS * (frames * dim) <= frames * features) by (nonlinear_arith)
        requires
            HEADS * dim <= features,
            0 <= frames,
    ;
}

/// The rest of the head.
fn project(latent_channels: usize, frames: usize, steps: &mut Vec<SoundStep>, Ghost(parts): Ghost<EncoderParts>)
    requires
        latent_channels == parts.latent_channels,
        frames * latent_channels <= usize::MAX,
        MLP_RATIO * latent_channels <= usize::MAX,
        frames * (MLP_RATIO * latent_channels) <= usize::MAX,
    ensures
        final(steps)@ == old(steps)@ + mlp_steps(parts, frames as int),
{
    let ghost before = steps@;
    let rows: usize = frames;
    let count: usize = frames * latent_channels;
    let hidden: usize = MLP_RATIO * latent_channels;
    steps.push(SoundStep::Norm { norm: HeadNorm::Norm3, input: Sound::Signal, output: Sound::Normalized, rows });
    steps.push(
        SoundStep::Linear { linear: HeadLinear::Projection, input: Sound::Normalized, output: Sound::HeadFirst, rows },
    );
    steps.push(SoundStep::Add { output: Sound::HeadFirst, first: Sound::HeadFirst, second: Sound::HeadSecond, count });
    steps.push(SoundStep::Norm { norm: HeadNorm::Norm2, input: Sound::HeadFirst, output: Sound::HeadSecond, rows });
    steps.push(SoundStep::Norm { norm: HeadNorm::Mlp, input: Sound::HeadSecond, output: Sound::Latent, rows });
    steps.push(SoundStep::Linear { linear: HeadLinear::Gate, input: Sound::Latent, output: Sound::Qkv, rows });
    steps.push(SoundStep::Linear { linear: HeadLinear::Value, input: Sound::Latent, output: Sound::Query, rows });
    steps.push(SoundStep::Geglu { count: frames * hidden });
    steps.push(SoundStep::Linear { linear: HeadLinear::Output, input: Sound::Key, output: Sound::HeadSecond, rows });
    steps.push(SoundStep::Add { output: Sound::HeadSecond, first: Sound::HeadSecond, second: Sound::HeadFirst, count });
    assert(steps@ =~= before + mlp_steps(parts, frames as int));
}

/// How a sound is encoded.
pub struct SoundEncoding {
    pub sequences: usize,
    /// Latent frames.
    pub frames: usize,
    /// Samples of a stereo channel, padded to a whole number of frames.
    pub padded: usize,
    pub workspace: SoundWorkspace,
    /// What is launched for each stereo channel.
    pub steps: Vec<SoundStep>,
}

/// What a waveform is refused for.
pub open spec fn waveform_refusal(shape: Seq<usize>) -> Option<Seq<char>> {
    if shape.len() != 2 {
        Some("a waveform of shape "@ + text::listed(shape) + " is not [stereo channels, samples]"@)
    } else if shape[0] == 0 || shape[1] == 0 {
        Some("the waveform is empty"@)
    } else {
        None
    }
}

/// The buffers for this many latent frames.
pub open spec fn workspace_of(parts: EncoderParts, frames: int, slice: usize) -> SoundWorkspace {
    let samples = frames * SAMPLES_PER_LATENT;
    SoundWorkspace {
        signal: (signal_values(parts, samples, BLOCKS as int) * 4) as usize,
        columns: (all_columns(parts, samples, slice) * 4) as usize,
        normalized: (frames * parts.features * 4) as usize,
        qkv: (frames * 3 * parts.features * 4) as usize,
        heads: (HEADS * (frames * parts.features / HEADS as int) * 4) as usize,
        scores: (frames * frames * 4) as usize,
        latent: (frames * parts.latent_channels * 4) as usize,
    }
}

impl CudaAudioEncoder {
    /// Latent frames of `samples` samples, which the encoder pads to a whole number of them.
    pub fn latent_frames(samples: usize) -> (frames: usize)
        ensures
            frames == arithmetic::ceil_div(samples as int, SAMPLES_PER_LATENT as int),
    {
        arithmetic::units(samples, SAMPLES_PER_LATENT)
    }

    fn workspace(&self, frames: usize, slice: usize) -> (workspace: SoundWorkspace)
        requires
            is_loaded(self@),
            0 < frames,
            is_encodable(self@, frames as int, slice),
        ensures
            workspace == workspace_of(self@, frames as int, slice),
    {
        let ghost parts = self@;
        let samples: usize = frames * SAMPLES_PER_LATENT;
        let mut length: usize = samples;
        let mut channels: usize = self.input.outputs;
        proof {
            a_block_has_room(parts, frames as int, 0);
            audio_encoder::folds();
            assert(0 < parts.input.kernel * parts.input.inputs) by (nonlinear_arith)
                requires
                    parts.input.kernel > 0,
                    parts.input.inputs == 1,
            ;
        }
        let mut signal: usize = length * channels;
        let mut wide: usize = columns(slice, length, self.input.kernel * self.input.inputs);
        for index in 0..BLOCKS
            invariant
                parts == self@,
                is_loaded(parts),
                0 < frames,
                samples == frames * SAMPLES_PER_LATENT,
                is_encodable(parts, frames as int, slice),
                length == length_after(samples as int, index as int),
                channels == channels_before(parts, index as int),
                signal == signal_values(parts, samples as int, index as int),
                wide == widest_columns(parts, samples as int, slice, index as int),
        {
            let stride: usize = self.blocks[index].stride;
            let downsample = self.blocks[index].downsample;
            proof {
                assert(parts.blocks[index as int] == self.blocks@[index as int]@);
                a_block_is_known(parts, index as int);
                a_block_has_room(parts, frames as int, index + 1);
                a_fold_divides_the_samples(frames as int, index as int);
                a_fold_is_countable(stride as int, channels as int, parts.post.inputs as int);
            }
            wide = arithmetic::greatest(wide, columns(slice, length, RESIDUAL_KERNEL * channels));
            wide = arithmetic::greatest(wide, columns(slice, length / stride, downsample.kernel * channels));
            length = length / stride;
            channels = downsample.outputs;
            signal = arithmetic::greatest(signal, length * channels);
        }
        proof {
            a_block_is_known(parts, BLOCKS as int);
            assert(0 < parts.post.kernel * channels) by (nonlinear_arith)
                requires
                    parts.post.kernel > 0,
                    channels > 0,
            ;
            rows_are_countable(frames as int, parts.features as int);
        }
        wide = arithmetic::greatest(wide, columns(slice, length, self.post.kernel * channels));
        proof {
            let values = frames * parts.features;
            vstd::arithmetic::div_mod::lemma_fundamental_div_mod(values, HEADS as int);
        }
        let head_values: usize = frames * self.features / HEADS;
        SoundWorkspace {
            signal: signal * 4,
            columns: wide * 4,
            normalized: frames * self.features * 4,
            qkv: frames * 3 * self.features * 4,
            heads: HEADS * head_values * 4,
            scores: frames * frames * 4,
            latent: frames * self.latent_channels * 4,
        }
    }

    /// How a waveform `[stereo channels, samples]` in [−1, 1] at 32 kHz is encoded into the posterior mean
    /// `[latent channels, stereo channels, frames]`, or why it is not. The samples are padded with zeros on the right
    /// to a whole number of frames. `slice` is how many values of im2col columns are built at a time.
    pub fn encode(&self, shape: &Vec<usize>, slice: usize) -> (encoding: Result<SoundEncoding, Error>)
        requires
            is_loaded(self@),
            waveform_refusal(shape@) is None ==> is_encodable(
                self@,
                arithmetic::ceil_div(shape@[1] as int, SAMPLES_PER_LATENT as int),
                slice,
            ),
        ensures
            match waveform_refusal(shape@) {
                Some(words) => encoding matches Err(error) && error.says(words),
                None => {
                    let frames = arithmetic::ceil_div(shape@[1] as int, SAMPLES_PER_LATENT as int);
                    &&& encoding matches Ok(encoding)
                    &&& encoding.sequences == shape@[0]
                    &&& encoding.frames == frames
                    &&& encoding.padded == frames * SAMPLES_PER_LATENT
                    &&& encoding.padded >= shape@[1]
                    &&& encoding.workspace == workspace_of(self@, frames, slice)
                    &&& encoding.steps@ == channel_steps(self@, frames, slice)
                },
            },
    {
        if shape.len() != 2 {
            let mut message = String::from_str("a waveform of shape ");
            text::push_list(&mut message, shape);
            message.append(" is not [stereo channels, samples]");
            return Err(Error::Model(message));
        }
        if shape[0] == 0 || shape[1] == 0 {
            return Err(Error::Model(String::from_str("the waveform is empty")));
        }
        let frames: usize = CudaAudioEncoder::latent_frames(shape[1]);
        proof {
            arithmetic::ceil_div_is_least(shape@[1] as int, SAMPLES_PER_LATENT as int);
        }
        let workspace = self.workspace(frames, slice);
        let steps = self.encode_channel(frames, slice);
        Ok(SoundEncoding { sequences: shape[0], frames, padded: frames * SAMPLES_PER_LATENT, workspace, steps })
    }

    /// What is launched for the features of one stereo channel, `[frames, latent channels]` in the VAE's raw units.
    fn encode_channel(&self, frames: usize, slice: usize) -> (steps: Vec<SoundStep>)
        requires
            is_loaded(self@),
            0 < frames,
            is_encodable(self@, frames as int, slice),
        ensures
            steps@ == channel_steps(self@, frames as int, slice),
    {
        let ghost parts = self@;
        let samples: usize = frames * SAMPLES_PER_LATENT;
        let mut length: usize = samples;
        let mut channels: usize = self.input.outputs;
        let mut steps: Vec<SoundStep> = Vec::new();
        proof {
            audio_encoder::folds();
            assert(0 < parts.input.kernel * parts.input.inputs) by (nonlinear_arith)
                requires
                    parts.input.kernel > 0,
                    parts.input.inputs == 1,
            ;
        }
        convolve(
            SoundLayer::Input,
            &self.input,
            keep(self.input.kernel, 1),
            Sound::Samples,
            Sound::Signal,
            length,
            length,
            slice,
            &mut steps,
        );
        let ghost start = steps@;
        assert(start + Seq::<SoundStep>::empty() =~= start);
        for index in 0..BLOCKS
            invariant
                parts == self@,
                is_loaded(parts),
                0 < frames,
                samples == frames * SAMPLES_PER_LATENT,
                is_encodable(parts, frames as int, slice),
                length == length_after(samples as int, index as int),
                channels == channels_before(parts, index as int),
                steps@ == start + blocks_steps(parts, samples as int, slice, index as int),
        {
            let ghost before = steps@;
            let stride: usize = self.blocks[index].stride;
            proof {
                assert(parts.blocks[index as int] == self.blocks@[index as int]@);
                a_block_is_known(parts, index as int);
                a_block_has_room(parts, frames as int, index as int);
                a_fold_divides_the_samples(frames as int, index as int);
                a_fold_is_countable(stride as int, channels as int, parts.post.inputs as int);
                let list = self.blocks@[index as int].units@;
                assert forall|i: int| 0 <= i < UNITS implies (#[trigger] list[i]).dilated.kernel == RESIDUAL_KERNEL
                    && list[i].dilated.inputs == channels && list[i].pointwise.kernel == 1 && list[i].dilation <= 9 by {
                    assert(parts.blocks[index as int].units[i] == list[i]);
                }
            }
            units(&self.blocks[index].units, index, length, channels, slice, &mut steps);
            fold(&self.blocks[index], index, length, length / stride, slice, &mut steps);
            length = length / stride;
            channels = self.blocks[index].downsample.outputs;
            assert(steps@ =~= start + blocks_steps(parts, samples as int, slice, index + 1));
        }
        proof {
            the_encoder_gives_its_frames(frames as int);
            a_block_is_known(parts, BLOCKS as int);
            assert(0 < parts.post.kernel * channels) by (nonlinear_arith)
                requires
                    parts.post.kernel > 0,
                    channels > 0,
            ;
            rows_are_countable(frames as int, parts.features as int);
        }
        steps.push(SoundStep::Snake { snake: Snake::Post, input: Sound::Signal, output: Sound::First, length: frames });
        convolve(
            SoundLayer::Post,
            &self.post,
            keep(self.post.kernel, 1),
            Sound::First,
            Sound::Signal,
            frames,
            frames,
            slice,
            &mut steps,
        );
        attention(self.features, self.latent_channels, frames, &mut steps, Ghost(parts));
        project(self.latent_channels, frames, &mut steps, Ghost(parts));
        steps.push(
            SoundStep::Product {
                layer: SoundLayer::MeanProjection,
                input: Sound::HeadSecond,
                output: Sound::Latent,
                first: 0,
                count: frames,
            },
        );
        assert(steps@ =~= channel_steps(parts, frames as int, slice));
        steps
    }
}

proof fn a_fold_is_countable(stride: int, channels: int, most: int)
    requires
        stride == 2 || stride == 4 || stride == 5,
        0 < channels,
        2 * channels <= most,
        RESIDUAL_KERNEL * most <= usize::MAX,
    ensures
        0 < 2 * stride * channels <= usize::MAX,
        0 < RESIDUAL_KERNEL * channels <= usize::MAX,
{
    assert(0 < 2 * stride * channels <= 10 * channels) by (nonlinear_arith)
        requires
            2 <= stride <= 5,
            0 < channels,
    ;
}

proof fn rows_are_countable(frames: int, features: int)
    requires
        0 <= frames,
        0 <= features,
    ensures
        0 <= frames * features,
        frames * 3 * features == 3 * (frames * features),
{
    assert(0 <= frames * features) by (nonlinear_arith)
        requires
            0 <= frames,
            0 <= features,
    ;
    assert(frames * 3 * features == 3 * (frames * features)) by (nonlinear_arith);
}

/// The samples of one stereo channel, with zeros on the right.
pub fn padded_channel<T: Copy>(waveform: &Vec<T>, sequence: usize, samples: usize, padded: usize, zero: T) -> (channel:
    Vec<T>)
    requires
        samples <= padded,
        (sequence + 1) * samples <= waveform@.len(),
    ensures
        channel@.len() == padded,
        forall|i: int| 0 <= i < samples ==> channel@[i] == waveform@[sequence * samples + i],
        forall|i: int| samples <= i < padded ==> channel@[i] == zero,
{
    let length: usize = waveform.len();
    proof {
        assert((sequence + 1) * samples == sequence * samples + samples) by (nonlinear_arith);
        assert(0 <= sequence * samples) by (nonlinear_arith)
            requires
                sequence >= 0,
                samples >= 0,
        ;
    }
    let start: usize = sequence * samples;
    let mut channel: Vec<T> = Vec::new();
    for index in 0..samples
        invariant
            length == waveform@.len(),
            start == sequence * samples,
            start + samples <= length,
            channel@.len() == index,
            forall|i: int| 0 <= i < index ==> channel@[i] == waveform@[start + i],
    {
        channel.push(waveform[start + index]);
    }
    for index in samples..padded
        invariant
            length == waveform@.len(),
            start == sequence * samples,
            start + samples <= length,
            samples <= padded,
            channel@.len() == index,
            forall|i: int| 0 <= i < samples ==> channel@[i] == waveform@[start + i],
            forall|i: int| samples <= i < index ==> channel@[i] == zero,
    {
        channel.push(zero);
    }
    channel
}

/// What is loaded has the strides and the dilations of the encoder.
pub proof fn a_loaded_encoder_has_its_strides(file: Seq<TensorInfo>, prefix: Seq<char>)
    requires
        audio_encoder::parts_of(file, prefix) is Ok,
    ensures
        ({
            let parts = audio_encoder::parts_of(file, prefix)->Ok_0;
            &&& parts.blocks.len() == BLOCKS
            &&& forall|i: int|
                0 <= i < BLOCKS ==> (#[trigger] parts.blocks[i]).stride == audio_encoder::stride_of(i)
                    && parts.blocks[i].units.len() == UNITS
            &&& forall|i: int, unit: int|
                0 <= i < BLOCKS && 0 <= unit < UNITS ==> (#[trigger] parts.blocks[i].units[unit]).dilation
                    == audio_encoder::dilation_of(unit)
        }),
{
    let parts = audio_encoder::parts_of(file, prefix)->Ok_0;
    let row = audio_encoder::block_row(file, prefix);
    checkpoint::a_row_is_long(row, BLOCKS as int);
    assert forall|i: int| 0 <= i < BLOCKS implies (#[trigger] parts.blocks[i]).stride == audio_encoder::stride_of(i)
        && parts.blocks[i].units.len() == UNITS by {
        checkpoint::parts_are_numbered(row, BLOCKS as int, i);
        let name = checkpoint::numbered(prefix + "encoder.block."@, (i + 1) as nat, ""@);
        checkpoint::a_row_is_long(audio_encoder::unit_row(file, name), UNITS as int);
    }
    assert forall|i: int, unit: int|
        0 <= i < BLOCKS && 0 <= unit < UNITS implies (#[trigger] parts.blocks[i].units[unit]).dilation
        == audio_encoder::dilation_of(unit) by {
        checkpoint::parts_are_numbered(row, BLOCKS as int, i);
        let name = checkpoint::numbered(prefix + "encoder.block."@, (i + 1) as nat, ""@);
        checkpoint::parts_are_numbered(audio_encoder::unit_row(file, name), UNITS as int, unit);
    }
}

/// A convolution of an encoder.
pub open spec fn layer_of(parts: EncoderParts, layer: SoundLayer) -> Convolution {
    match layer {
        SoundLayer::Input => parts.input,
        SoundLayer::Dilated { block, unit } => parts.blocks[block as int].units[unit as int].dilated,
        SoundLayer::Pointwise { block, unit } => parts.blocks[block as int].units[unit as int].pointwise,
        SoundLayer::Downsample { block } => parts.blocks[block as int].downsample,
        SoundLayer::Post => parts.post,
        SoundLayer::MeanProjection => parts.mean_projection,
    }
}

/// The channels of a Snake of an encoder.
pub open spec fn channels_of(parts: EncoderParts, snake: Snake) -> usize {
    match snake {
        Snake::Before { block, unit } => parts.blocks[block as int].units[unit as int].before,
        Snake::Between { block, unit } => parts.blocks[block as int].units[unit as int].between,
        Snake::Block { block } => parts.blocks[block as int].activation,
        Snake::Post => parts.post_activation,
    }
}

/// The width of a norm of the head.
pub open spec fn width_of(parts: EncoderParts, norm: HeadNorm) -> usize {
    match norm {
        HeadNorm::Norm1 => parts.head.norm1,
        HeadNorm::Norm3 => parts.head.norm3,
        HeadNorm::Norm2 => parts.head.norm2,
        HeadNorm::Mlp => parts.head.mlp_norm,
    }
}

/// A linear layer of the head.
pub open spec fn linear_of(parts: EncoderParts, linear: HeadLinear) -> Linear {
    match linear {
        HeadLinear::Qkv => parts.head.qkv,
        HeadLinear::AttentionProjection => parts.head.attention_projection,
        HeadLinear::Projection => parts.head.projection,
        HeadLinear::Gate => parts.head.gate,
        HeadLinear::Value => parts.head.value,
        HeadLinear::Output => parts.head.output,
    }
}

/// Whether an encoder has a convolution.
pub open spec fn is_there(layer: SoundLayer) -> bool {
    match layer {
        SoundLayer::Input | SoundLayer::Post | SoundLayer::MeanProjection => true,
        SoundLayer::Dilated { block, unit } | SoundLayer::Pointwise { block, unit } => block < BLOCKS && unit < UNITS,
        SoundLayer::Downsample { block } => block < BLOCKS,
    }
}

/// Whether an encoder has a Snake.
pub open spec fn is_active(snake: Snake) -> bool {
    match snake {
        Snake::Before { block, unit } | Snake::Between { block, unit } => block < BLOCKS && unit < UNITS,
        Snake::Block { block } => block < BLOCKS,
        Snake::Post => true,
    }
}

/// The name of a block in a file.
spec fn whole_block(prefix: Seq<char>, block: usize) -> Seq<char> {
    checkpoint::numbered(prefix + "encoder.block."@, (block + 1) as nat, ""@)
}

/// The name of a residual unit in a file.
spec fn whole_unit(prefix: Seq<char>, block: usize, unit: usize) -> Seq<char> {
    checkpoint::numbered(whole_block(prefix, block) + ".block."@, unit as nat, ".block"@)
}

proof fn names_are_whole(prefix: Seq<char>, block: usize, unit: usize, rest: Seq<char>)
    ensures
        prefix + block_letters(block, rest) == whole_block(prefix, block) + rest,
        prefix + unit_letters(block, unit, rest) == whole_unit(prefix, block, unit) + rest,
{
    assert(prefix + block_letters(block, rest) =~= whole_block(prefix, block) + rest);
    assert(prefix + block_letters(block, ".block."@) =~= whole_block(prefix, block) + ".block."@);
    assert(prefix + unit_letters(block, unit, rest) =~= whole_unit(prefix, block, unit) + rest);
}

proof fn a_block_is_in_its_file(file: Seq<TensorInfo>, prefix: Seq<char>, block: usize, unit: usize)
    requires
        audio_encoder::parts_of(file, prefix) is Ok,
        block < BLOCKS,
        unit < UNITS,
    ensures
        ({
            let held = audio_encoder::parts_of(file, prefix)->Ok_0.blocks[block as int];
            let stride = audio_encoder::stride_of(block as int);
            let dilation = audio_encoder::dilation_of(unit as int);
            &&& audio_encoder::block_of(file, whole_block(prefix, block), stride) == Ok::<BlockParts, Seq<char>>(held)
            &&& audio_encoder::unit_of(file, whole_unit(prefix, block, unit), dilation) == Ok::<ResidualUnit, Seq<char>>(
                held.units[unit as int],
            )
        }),
{
    checkpoint::parts_are_numbered(audio_encoder::block_row(file, prefix), BLOCKS as int, block as int);
    let row = audio_encoder::unit_row(file, whole_block(prefix, block));
    checkpoint::parts_are_numbered(row, UNITS as int, unit as int);
}

/// Each convolution that a loaded encoder has is the one of its name in the file.
pub proof fn a_convolution_is_in_its_file(file: Seq<TensorInfo>, prefix: Seq<char>, layer: SoundLayer)
    requires
        audio_encoder::parts_of(file, prefix) is Ok,
        is_there(layer),
    ensures
        Convolution::of(file, prefix + layer.letters(), true) == Ok::<Convolution, Seq<char>>(
            layer_of(audio_encoder::parts_of(file, prefix)->Ok_0, layer),
        ),
{
    match layer {
        SoundLayer::Dilated { block, unit } => {
            names_are_whole(prefix, block, unit, ".1"@);
            a_block_is_in_its_file(file, prefix, block, unit);
        },
        SoundLayer::Pointwise { block, unit } => {
            names_are_whole(prefix, block, unit, ".3"@);
            a_block_is_in_its_file(file, prefix, block, unit);
        },
        SoundLayer::Downsample { block } => {
            names_are_whole(prefix, block, 0, ".block.4"@);
            a_block_is_in_its_file(file, prefix, block, 0);
        },
        _ => {},
    }
}

proof fn alphas_are_whole(name: Seq<char>)
    ensures
        name + ".0"@ + ".alpha"@ == name + ".0.alpha"@,
        name + ".2"@ + ".alpha"@ == name + ".2.alpha"@,
        name + ".block.3"@ + ".alpha"@ == name + ".block.3.alpha"@,
        name + "encoder.block.6"@ + ".alpha"@ == name + "encoder.block.6.alpha"@,
{
    reveal_strlit(".alpha");
    reveal_strlit(".0");
    reveal_strlit(".0.alpha");
    reveal_strlit(".2");
    reveal_strlit(".2.alpha");
    reveal_strlit(".block.3");
    reveal_strlit(".block.3.alpha");
    reveal_strlit("encoder.block.6");
    reveal_strlit("encoder.block.6.alpha");
    assert(name + ".0"@ + ".alpha"@ =~= name + ".0.alpha"@);
    assert(name + ".2"@ + ".alpha"@ =~= name + ".2.alpha"@);
    assert(name + ".block.3"@ + ".alpha"@ =~= name + ".block.3.alpha"@);
    assert(name + "encoder.block.6"@ + ".alpha"@ =~= name + "encoder.block.6.alpha"@);
}

/// Each Snake that a loaded encoder has is the one of its name in the file.
pub proof fn a_snake_is_in_its_file(file: Seq<TensorInfo>, prefix: Seq<char>, snake: Snake)
    requires
        audio_encoder::parts_of(file, prefix) is Ok,
        is_active(snake),
    ensures
        audio_encoder::elements_of(file, prefix + snake.letters() + ".alpha"@) == Ok::<usize, Seq<char>>(
            channels_of(audio_encoder::parts_of(file, prefix)->Ok_0, snake),
        ),
{
    match snake {
        Snake::Before { block, unit } => {
            names_are_whole(prefix, block, unit, ".0"@);
            a_block_is_in_its_file(file, prefix, block, unit);
            alphas_are_whole(whole_unit(prefix, block, unit));
        },
        Snake::Between { block, unit } => {
            names_are_whole(prefix, block, unit, ".2"@);
            a_block_is_in_its_file(file, prefix, block, unit);
            alphas_are_whole(whole_unit(prefix, block, unit));
        },
        Snake::Block { block } => {
            names_are_whole(prefix, block, 0, ".block.3"@);
            a_block_is_in_its_file(file, prefix, block, 0);
            alphas_are_whole(whole_block(prefix, block));
        },
        Snake::Post => {
            alphas_are_whole(prefix);
        },
    }
}

/// Each norm of the head of a loaded encoder is the one of its name in the file.
pub proof fn a_norm_is_in_its_file(file: Seq<TensorInfo>, prefix: Seq<char>, norm: HeadNorm)
    requires
        audio_encoder::parts_of(file, prefix) is Ok,
    ensures
        audio_encoder::norm_of(file, prefix + norm.letters()) == Ok::<usize, Seq<char>>(
            width_of(audio_encoder::parts_of(file, prefix)->Ok_0, norm),
        ),
{
}

/// Each linear layer of the head of a loaded encoder is the one of its name in the file, where the joined query, key and
/// value have three biases of their own.
pub proof fn a_linear_layer_is_in_its_file(file: Seq<TensorInfo>, prefix: Seq<char>, linear: HeadLinear)
    requires
        audio_encoder::parts_of(file, prefix) is Ok,
    ensures
        ({
            let held = Ok::<Linear, Seq<char>>(linear_of(audio_encoder::parts_of(file, prefix)->Ok_0, linear));
            if linear is Qkv {
                audio_encoder::qkv_of(file, prefix + "pre_block.attn"@) matches Ok((shape, bias)) && Linear::of(
                    shape,
                    bias,
                ) == held
            } else {
                Linear::loaded(file, prefix + linear.letters()) == held
            }
        }),
{
}

/// Values that a buffer of an encode call holds.
pub open spec fn capacity(parts: EncoderParts, frames: int, slice: usize, sound: Sound) -> int {
    let samples = frames * SAMPLES_PER_LATENT;
    match sound {
        Sound::Samples => samples,
        Sound::Signal | Sound::First | Sound::Second => signal_values(parts, samples, BLOCKS as int),
        Sound::Columns => all_columns(parts, samples, slice),
        Sound::Normalized => frames * parts.features,
        Sound::Qkv => frames * 3 * parts.features,
        Sound::Query | Sound::Key | Sound::Values | Sound::Attention => HEADS * (frames * parts.features
            / HEADS as int),
        Sound::Scores => frames * frames,
        Sound::Latent | Sound::HeadFirst | Sound::HeadSecond => frames * parts.latent_channels,
    }
}

/// Whether the encoder has what a launch reads, and the launch stays in its buffers.
pub open spec fn step_fits(parts: EncoderParts, frames: int, slice: usize, step: SoundStep) -> bool {
    let holds = |sound: Sound, values: int| values <= capacity(parts, frames, slice, sound);
    match step {
        SoundStep::Columns { layer, walk, input, length, first, count } => {
            let convolution = layer_of(parts, layer);
            &&& is_there(layer)
            &&& holds(input, length * convolution.inputs)
            &&& holds(Sound::Columns, count * (convolution.kernel * convolution.inputs))
        },
        SoundStep::Product { layer, input, output, first, count } => {
            let convolution = layer_of(parts, layer);
            &&& is_there(layer)
            &&& if convolution.kernel == 1 {
                holds(input, (first + count) * convolution.inputs)
            } else {
                input == Sound::Columns && holds(input, count * (convolution.kernel * convolution.inputs))
            }
            &&& holds(output, (first + count) * convolution.outputs)
        },
        SoundStep::Snake { snake, input, output, length } => {
            &&& is_active(snake)
            &&& holds(input, length * channels_of(parts, snake))
            &&& holds(output, length * channels_of(parts, snake))
        },
        SoundStep::Add { output, first, second, count } => {
            &&& holds(output, count as int)
            &&& holds(first, count as int)
            &&& holds(second, count as int)
        },
        SoundStep::Norm { norm, input, output, rows } => {
            &&& holds(input, rows * width_of(parts, norm))
            &&& holds(output, rows * width_of(parts, norm))
        },
        SoundStep::Linear { linear, input, output, rows } => {
            &&& holds(input, rows * linear_of(parts, linear).inputs)
            &&& holds(output, rows * linear_of(parts, linear).outputs)
        },
        SoundStep::Split { rows, head_dim } => {
            let values = HEADS * (rows * head_dim);
            &&& holds(Sound::Qkv, 3 * values)
            &&& holds(Sound::Query, values)
            &&& holds(Sound::Key, values)
            &&& holds(Sound::Values, values)
        },
        SoundStep::Scores { offset, rows, head_dim } => {
            &&& offset + rows * head_dim * 4 <= capacity(parts, frames, slice, Sound::Query) * 4
            &&& offset + rows * head_dim * 4 <= capacity(parts, frames, slice, Sound::Key) * 4
            &&& holds(Sound::Scores, rows * rows)
        },
        SoundStep::Softmax { rows, head_dim } => holds(Sound::Scores, rows * rows),
        SoundStep::Attend { offset, rows, head_dim } => {
            &&& holds(Sound::Scores, rows * rows)
            &&& offset + rows * head_dim * 4 <= capacity(parts, frames, slice, Sound::Values) * 4
            &&& offset + rows * head_dim * 4 <= capacity(parts, frames, slice, Sound::Attention) * 4
        },
        SoundStep::Pool { rows, head_dim, outputs } => {
            &&& holds(Sound::Attention, HEADS * (rows * head_dim))
            &&& holds(Sound::HeadFirst, rows * outputs)
        },
        SoundStep::Geglu { count } => {
            &&& holds(Sound::Qkv, count as int)
            &&& holds(Sound::Query, count as int)
            &&& holds(Sound::Key, count as int)
        },
    }
}

/// Whether each layer takes what the one before it leaves, and the hidden features of the GeGLU are no more than
/// those of the attention whose buffers it uses.
pub open spec fn is_matched(parts: EncoderParts) -> bool {
    &&& is_loaded(parts)
    &&& forall|i: int| 0 <= i < BLOCKS ==> block_is_matched(#[trigger] parts.blocks[i], channels_before(parts, i))
    &&& parts.post_activation == parts.post.inputs
    &&& parts.post.outputs == parts.features
    &&& parts.features <= parts.post.inputs
    &&& head_is_matched(parts.head, parts.features, parts.latent_channels)
    &&& parts.mean_projection.outputs == parts.latent_channels
}

pub open spec fn block_is_matched(block: BlockParts, channels: usize) -> bool {
    &&& block.activation == channels
    &&& forall|i: int| 0 <= i < UNITS ==> unit_is_matched(#[trigger] block.units[i], channels)
}

pub open spec fn unit_is_matched(unit: ResidualUnit, channels: usize) -> bool {
    &&& unit.before == channels
    &&& unit.between == channels
    &&& unit.dilated.outputs == channels
    &&& unit.pointwise.inputs == channels
    &&& unit.pointwise.outputs == channels
}

pub open spec fn head_is_matched(head: AttentionProjection, features: usize, latents: usize) -> bool {
    &&& MLP_RATIO * latents <= features
    &&& head.norm1 == features
    &&& head.norm3 == features
    &&& head.norm2 == latents
    &&& head.mlp_norm == latents
    &&& head.attention_projection.inputs == latents
    &&& head.attention_projection.outputs == latents
    &&& head.projection.inputs == features
    &&& head.projection.outputs == latents
    &&& head.gate.inputs == latents
    &&& head.value.inputs == latents
    &&& head.value.outputs == MLP_RATIO * latents
    &&& head.output.inputs == MLP_RATIO * latents
    &&& head.output.outputs == latents
}

spec fn steps_fit(parts: EncoderParts, frames: int, slice: usize, steps: Seq<SoundStep>) -> bool {
    forall|i: int| 0 <= i < steps.len() ==> step_fits(parts, frames, slice, #[trigger] steps[i])
}

proof fn both_fit(parts: EncoderParts, frames: int, slice: usize, one: Seq<SoundStep>, other: Seq<SoundStep>)
    requires
        steps_fit(parts, frames, slice, one),
        steps_fit(parts, frames, slice, other),
    ensures
        steps_fit(parts, frames, slice, one + other),
{
    let all = one + other;
    assert forall|i: int| 0 <= i < all.len() implies step_fits(parts, frames, slice, #[trigger] all[i]) by {
        if i < one.len() {
            assert(all[i] == one[i]);
        } else {
            assert(all[i] == other[i - one.len()]);
        }
    }
}

proof fn slices_fit(
    parts: EncoderParts,
    frames: int,
    slice: usize,
    layer: SoundLayer,
    walk: Walk,
    input: Sound,
    output: Sound,
    length: int,
    held: int,
    rows: int,
    first: int,
)
    requires
        is_there(layer),
        1 <= held,
        0 <= first,
        0 <= rows <= usize::MAX,
        0 <= length <= usize::MAX,
        layer_of(parts, layer).kernel != 1,
        length * layer_of(parts, layer).inputs <= capacity(parts, frames, slice, input),
        rows * layer_of(parts, layer).outputs <= capacity(parts, frames, slice, output),
        arithmetic::min(held, rows) * (layer_of(parts, layer).kernel * layer_of(parts, layer).inputs) <= capacity(
            parts,
            frames,
            slice,
            Sound::Columns,
        ),
    ensures
        steps_fit(parts, frames, slice, slices(layer, walk, input, output, length, held, rows, first)),
    decreases rows - first,
{
    if first < rows {
        let count = arithmetic::min(held, rows - first);
        slices_fit(parts, frames, slice, layer, walk, input, output, length, held, rows, first + count);
        let convolution = layer_of(parts, layer);
        let (features, outputs) = (convolution.kernel * convolution.inputs, convolution.outputs as int);
        assert(0 <= features) by (nonlinear_arith)
            requires
                features == convolution.kernel * convolution.inputs,
                convolution.kernel >= 0,
                convolution.inputs >= 0,
        ;
        arithmetic::products_grow(count, features, arithmetic::min(held, rows), features);
        arithmetic::products_grow(first + count, outputs, rows, outputs);
        let rest = slices(layer, walk, input, output, length, held, rows, first + count);
        let pair = seq![
            SoundStep::Columns {
                layer,
                walk,
                input,
                length: length as usize,
                first: first as usize,
                count: count as usize,
            },
            SoundStep::Product { layer, input: Sound::Columns, output, first: first as usize, count: count as usize },
        ];
        assert(step_fits(parts, frames, slice, pair[0]));
        assert(step_fits(parts, frames, slice, pair[1]));
        assert(steps_fit(parts, frames, slice, pair));
        both_fit(parts, frames, slice, pair, rest);
    }
}

proof fn a_convolution_fits(
    parts: EncoderParts,
    frames: int,
    slice: usize,
    layer: SoundLayer,
    walk: Walk,
    input: Sound,
    output: Sound,
    length: int,
    rows: int,
)
    requires
        is_there(layer),
        0 <= rows <= usize::MAX,
        0 <= length <= usize::MAX,
        layer_of(parts, layer).kernel == 1 ==> rows == length,
        length * layer_of(parts, layer).inputs <= capacity(parts, frames, slice, input),
        rows * layer_of(parts, layer).outputs <= capacity(parts, frames, slice, output),
        layer_of(parts, layer).kernel == 1 || column_values(
            slice,
            rows,
            layer_of(parts, layer).kernel * layer_of(parts, layer).inputs,
        ) <= capacity(parts, frames, slice, Sound::Columns),
    ensures
        steps_fit(
            parts,
            frames,
            slice,
            convolve_steps(layer, layer_of(parts, layer), walk, input, output, length, rows, slice),
        ),
{
    let convolution = layer_of(parts, layer);
    if convolution.kernel == 1 {
        let steps = convolve_steps(layer, convolution, walk, input, output, length, rows, slice);
        assert(step_fits(parts, frames, slice, steps[0]));
    } else {
        slices_fit(
            parts,
            frames,
            slice,
            layer,
            walk,
            input,
            output,
            length,
            slice_rows(slice, convolution.kernel * convolution.inputs),
            rows,
            0,
        );
    }
}

/// What a block needs of the columns.
proof fn a_block_has_columns(parts: EncoderParts, frames: int, slice: usize, block: int)
    requires
        is_loaded(parts),
        0 < frames,
        0 <= block < BLOCKS,
    ensures
        ({
            let samples = frames * SAMPLES_PER_LATENT;
            let channels = channels_before(parts, block) as int;
            let all = all_columns(parts, samples, slice);
            &&& column_values(slice, length_after(samples, block), RESIDUAL_KERNEL * channels) <= all
            &&& column_values(
                slice,
                length_after(samples, block + 1),
                parts.blocks[block].downsample.kernel * channels,
            ) <= all
        }),
{
    let samples = frames * SAMPLES_PER_LATENT;
    columns_grow(parts, samples, slice, block + 1, BLOCKS as int);
    a_fold_divides_the_samples(frames, block);
    a_block_is_known(parts, block);
}

proof fn a_unit_fits(parts: EncoderParts, frames: int, slice: usize, block: int, unit: int)
    requires
        is_matched(parts),
        0 < frames,
        is_encodable(parts, frames, slice),
        0 <= block < BLOCKS,
        0 <= unit < UNITS,
    ensures
        steps_fit(
            parts,
            frames,
            slice,
            unit_steps(
                parts.blocks[block].units[unit],
                block,
                unit,
                length_after(frames * SAMPLES_PER_LATENT, block),
                channels_before(parts, block) as int,
                slice,
            ),
        ),
{
    let samples = frames * SAMPLES_PER_LATENT;
    let length = length_after(samples, block);
    let channels = channels_before(parts, block) as int;
    let held = parts.blocks[block].units[unit];
    let (b, u) = (block as usize, unit as usize);
    a_block_is_known(parts, block);
    a_block_has_room(parts, frames, block);
    a_block_has_columns(parts, frames, slice, block);
    assert(block_is_matched(parts.blocks[block], channels_before(parts, block)));
    assert(unit_is_matched(held, channels_before(parts, block)));
    let (dilated, pointwise) = (
        SoundLayer::Dilated { block: b, unit: u },
        SoundLayer::Pointwise { block: b, unit: u },
    );
    assert(layer_of(parts, dilated) == held.dilated);
    assert(layer_of(parts, pointwise) == held.pointwise);
    let walk = keeping(held.dilated.kernel, held.dilation);
    let plain = keeping(held.pointwise.kernel, 1);
    a_convolution_fits(parts, frames, slice, dilated, walk, Sound::First, Sound::Second, length, length);
    a_convolution_fits(parts, frames, slice, pointwise, plain, Sound::First, Sound::Second, length, length);
    let one = seq![
        SoundStep::Snake {
            snake: Snake::Before { block: b, unit: u },
            input: Sound::Signal,
            output: Sound::First,
            length: length as usize,
        },
    ];
    let two = seq![
        SoundStep::Snake {
            snake: Snake::Between { block: b, unit: u },
            input: Sound::Second,
            output: Sound::First,
            length: length as usize,
        },
    ];
    let three = seq![
        SoundStep::Add {
            output: Sound::Signal,
            first: Sound::Signal,
            second: Sound::Second,
            count: (length * channels) as usize,
        },
    ];
    assert(steps_fit(parts, frames, slice, one));
    assert(steps_fit(parts, frames, slice, two));
    assert(steps_fit(parts, frames, slice, three));
    let first = convolve_steps(dilated, held.dilated, walk, Sound::First, Sound::Second, length, length, slice);
    let second = convolve_steps(pointwise, held.pointwise, plain, Sound::First, Sound::Second, length, length, slice);
    both_fit(parts, frames, slice, one, first);
    both_fit(parts, frames, slice, one + first, two);
    both_fit(parts, frames, slice, one + first + two, second);
    both_fit(parts, frames, slice, one + first + two + second, three);
}

proof fn units_fit(parts: EncoderParts, frames: int, slice: usize, block: int, count: int)
    requires
        is_matched(parts),
        0 < frames,
        is_encodable(parts, frames, slice),
        0 <= block < BLOCKS,
        0 <= count <= UNITS,
    ensures
        steps_fit(
            parts,
            frames,
            slice,
            units_steps(
                parts.blocks[block].units,
                block,
                length_after(frames * SAMPLES_PER_LATENT, block),
                channels_before(parts, block) as int,
                slice,
                count,
            ),
        ),
    decreases count,
{
    if count > 0 {
        let length = length_after(frames * SAMPLES_PER_LATENT, block);
        let channels = channels_before(parts, block) as int;
        let units = parts.blocks[block].units;
        units_fit(parts, frames, slice, block, count - 1);
        a_unit_fits(parts, frames, slice, block, count - 1);
        both_fit(
            parts,
            frames,
            slice,
            units_steps(units, block, length, channels, slice, count - 1),
            unit_steps(units[count - 1], block, count - 1, length, channels, slice),
        );
    }
}

proof fn a_fold_fits(parts: EncoderParts, frames: int, slice: usize, block: int)
    requires
        is_matched(parts),
        0 < frames,
        is_encodable(parts, frames, slice),
        0 <= block < BLOCKS,
    ensures
        steps_fit(
            parts,
            frames,
            slice,
            fold_steps(parts.blocks[block], block, length_after(frames * SAMPLES_PER_LATENT, block), slice),
        ),
{
    let samples = frames * SAMPLES_PER_LATENT;
    let (length, after) = (length_after(samples, block), length_after(samples, block + 1));
    a_block_is_known(parts, block);
    a_block_is_known(parts, block + 1);
    a_block_has_room(parts, frames, block);
    a_block_has_room(parts, frames, block + 1);
    a_block_has_columns(parts, frames, slice, block);
    a_fold_divides_the_samples(frames, block);
    assert(block_is_matched(parts.blocks[block], channels_before(parts, block)));
    let layer = SoundLayer::Downsample { block: block as usize };
    let held = parts.blocks[block];
    assert(layer_of(parts, layer) == held.downsample);
    let walk = folding(held.stride);
    a_convolution_fits(parts, frames, slice, layer, walk, Sound::First, Sound::Signal, length, after);
    let one = seq![
        SoundStep::Snake {
            snake: Snake::Block { block: block as usize },
            input: Sound::Signal,
            output: Sound::First,
            length: length as usize,
        },
    ];
    assert(steps_fit(parts, frames, slice, one));
    both_fit(
        parts,
        frames,
        slice,
        one,
        convolve_steps(layer, held.downsample, walk, Sound::First, Sound::Signal, length, after, slice),
    );
}

proof fn blocks_fit(parts: EncoderParts, frames: int, slice: usize, count: int)
    requires
        is_matched(parts),
        0 < frames,
        is_encodable(parts, frames, slice),
        0 <= count <= BLOCKS,
    ensures
        steps_fit(parts, frames, slice, blocks_steps(parts, frames * SAMPLES_PER_LATENT, slice, count)),
    decreases count,
{
    if count > 0 {
        let samples = frames * SAMPLES_PER_LATENT;
        let block = count - 1;
        let length = length_after(samples, block);
        blocks_fit(parts, frames, slice, block);
        units_fit(parts, frames, slice, block, UNITS as int);
        a_fold_fits(parts, frames, slice, block);
        let before = blocks_steps(parts, samples, slice, block);
        let units = units_steps(
            parts.blocks[block].units,
            block,
            length,
            channels_before(parts, block) as int,
            slice,
            UNITS as int,
        );
        both_fit(parts, frames, slice, before, units);
        both_fit(parts, frames, slice, before + units, fold_steps(parts.blocks[block], block, length, slice));
    }
}

proof fn heads_fit(parts: EncoderParts, frames: int, slice: usize, count: int)
    requires
        is_matched(parts),
        0 < frames,
        is_encodable(parts, frames, slice),
        0 <= count <= HEADS,
    ensures
        steps_fit(parts, frames, slice, heads_steps(frames, parts.features as int / HEADS as int, count)),
    decreases count,
{
    if count > 0 {
        let head_dim = parts.features as int / HEADS as int;
        heads_fit(parts, frames, slice, count - 1);
        a_head_is_countable(frames, parts.features as int, count - 1);
        the_heads_are_the_features(frames, parts.features as int);
        rows_are_countable(frames, parts.features as int);
        let steps = head_steps(frames, head_dim, count - 1);
        assert((count - 1) * frames * head_dim * 4 <= usize::MAX);
        assert(step_fits(parts, frames, slice, steps[0]));
        assert(step_fits(parts, frames, slice, steps[1]));
        assert(step_fits(parts, frames, slice, steps[2]));
        assert(steps_fit(parts, frames, slice, steps));
        both_fit(parts, frames, slice, heads_steps(frames, head_dim, count - 1), steps);
    }
}

/// Features that are whole heads are the heads' values.
proof fn the_heads_are_the_features(frames: int, features: int)
    requires
        features % HEADS as int == 0,
    ensures
        HEADS * (frames * (features / HEADS as int)) == frames * features,
        HEADS * (frames * features / HEADS as int) == frames * features,
{
    let dim = features / HEADS as int;
    assert(features == 8 * dim);
    assert(HEADS * (frames * dim) == frames * features) by (nonlinear_arith)
        requires
            features == 8 * dim,
            HEADS == 8,
    ;
    assert(frames * features == 8 * (frames * dim));
}

proof fn the_head_fits(parts: EncoderParts, frames: int, slice: usize)
    requires
        is_matched(parts),
        0 < frames,
        is_encodable(parts, frames, slice),
    ensures
        steps_fit(parts, frames, slice, project_steps(parts, frames)),
{
    let samples = frames * SAMPLES_PER_LATENT;
    let (features, latents) = (parts.features as int, parts.latent_channels as int);
    let head_dim = features / HEADS as int;
    the_heads_are_the_features(frames, features);
    rows_are_countable(frames, features);
    rows_are_countable(frames, latents);
    heads_fit(parts, frames, slice, HEADS as int);
    a_block_has_room(parts, frames, BLOCKS as int);
    a_block_is_known(parts, BLOCKS as int);
    the_encoder_gives_its_frames(frames);
    arithmetic::products_grow(frames, features, frames, parts.post.inputs as int);
    arithmetic::products_grow(frames, MLP_RATIO * latents, frames, features);
    assert(frames * (3 * features) == frames * 3 * features) by (nonlinear_arith);
    let rows = frames as usize;
    let one = seq![
        SoundStep::Norm { norm: HeadNorm::Norm1, input: Sound::Signal, output: Sound::Normalized, rows },
        SoundStep::Linear { linear: HeadLinear::Qkv, input: Sound::Normalized, output: Sound::Qkv, rows },
        SoundStep::Split { rows, head_dim: head_dim as usize },
    ];
    assert(step_fits(parts, frames, slice, one[0]));
    assert(step_fits(parts, frames, slice, one[1]));
    assert(step_fits(parts, frames, slice, one[2]));
    assert(steps_fit(parts, frames, slice, one));
    let heads = heads_steps(frames, head_dim, HEADS as int);
    let two = seq![
        SoundStep::Pool { rows, head_dim: head_dim as usize, outputs: parts.latent_channels },
        SoundStep::Linear {
            linear: HeadLinear::AttentionProjection,
            input: Sound::HeadFirst,
            output: Sound::HeadSecond,
            rows,
        },
    ];
    assert(step_fits(parts, frames, slice, two[0]));
    assert(step_fits(parts, frames, slice, two[1]));
    assert(steps_fit(parts, frames, slice, two));
    both_fit(parts, frames, slice, one, heads);
    both_fit(parts, frames, slice, one + heads, two);
    let mlp = mlp_steps(parts, frames);
    assert(steps_fit(parts, frames, slice, mlp)) by {
        assert(step_fits(parts, frames, slice, mlp[0]));
        assert(step_fits(parts, frames, slice, mlp[1]));
        assert(step_fits(parts, frames, slice, mlp[2]));
        assert(step_fits(parts, frames, slice, mlp[3]));
        assert(step_fits(parts, frames, slice, mlp[4]));
        assert(step_fits(parts, frames, slice, mlp[5]));
        assert(step_fits(parts, frames, slice, mlp[6]));
        assert(step_fits(parts, frames, slice, mlp[7]));
        assert(step_fits(parts, frames, slice, mlp[8]));
        assert(step_fits(parts, frames, slice, mlp[9]));
    }
    let mean = seq![
        SoundStep::Product {
            layer: SoundLayer::MeanProjection,
            input: Sound::HeadSecond,
            output: Sound::Latent,
            first: 0,
            count: frames as usize,
        },
    ];
    assert(step_fits(parts, frames, slice, mean[0]));
    assert(steps_fit(parts, frames, slice, mean));
    both_fit(parts, frames, slice, attention_steps(parts, frames), mlp);
    both_fit(parts, frames, slice, attention_steps(parts, frames) + mlp, mean);
}

/// The encoder has what every launch of an encode call reads, and the launch stays in the buffers that are made for it,
/// where each layer takes what the one before it leaves.
pub proof fn an_encode_stays_in_its_workspace(parts: EncoderParts, frames: usize, slice: usize, step: int)
    requires
        is_matched(parts),
        0 < frames,
        is_encodable(parts, frames as int, slice),
        0 <= step < channel_steps(parts, frames as int, slice).len(),
    ensures
        step_fits(parts, frames as int, slice, channel_steps(parts, frames as int, slice)[step]),
{
    let f = frames as int;
    let samples = f * SAMPLES_PER_LATENT;
    blocks_fit(parts, f, slice, BLOCKS as int);
    the_head_fits(parts, f, slice);
    a_block_is_known(parts, 0);
    a_block_has_room(parts, f, 0);
    a_block_is_known(parts, BLOCKS as int);
    a_block_has_room(parts, f, BLOCKS as int);
    the_encoder_gives_its_frames(f);
    audio_encoder::folds();
    columns_grow(parts, samples, slice, 0, BLOCKS as int);
    arithmetic::products_grow(f, parts.features as int, f, parts.post.inputs as int);
    let (start, walk) = (keeping(parts.input.kernel, 1), keeping(parts.post.kernel, 1));
    assert(samples * 1 == samples);
    a_convolution_fits(parts, f, slice, SoundLayer::Input, start, Sound::Samples, Sound::Signal, samples, samples);
    a_convolution_fits(parts, f, slice, SoundLayer::Post, walk, Sound::First, Sound::Signal, f, f);
    let input = convolve_steps(
        SoundLayer::Input,
        parts.input,
        start,
        Sound::Samples,
        Sound::Signal,
        samples,
        samples,
        slice,
    );
    let blocks = blocks_steps(parts, samples, slice, BLOCKS as int);
    let snake = seq![
        SoundStep::Snake { snake: Snake::Post, input: Sound::Signal, output: Sound::First, length: f as usize },
    ];
    let post = convolve_steps(SoundLayer::Post, parts.post, walk, Sound::First, Sound::Signal, f, f, slice);
    assert(step_fits(parts, f, slice, snake[0]));
    assert(steps_fit(parts, f, slice, snake));
    both_fit(parts, f, slice, input, blocks);
    both_fit(parts, f, slice, input + blocks, snake);
    both_fit(parts, f, slice, input + blocks + snake, post);
    both_fit(parts, f, slice, input + blocks + snake + post, project_steps(parts, f));
}

} // verus!
