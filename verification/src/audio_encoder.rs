//! The audio VAE's encoder on the GPU, for the reference sounds of reference to video generation.
//!
//! The DAC encoder is a stack of dilated residual units and strided convolutions that turns 800
//! samples into one latent frame of 2048 features, and the attention head projects those features
//! onto the 32 latent channels. Everything runs in FP32, one stereo channel at a time, and the
//! convolutions run as GEMMs over im2col rows like the decoder's.
use crate::audio_vae::Convolution;
use crate::checkpoint;
use crate::checkpoint::TensorInfo;
use crate::model;
use crate::model::Error;
use crate::text;
use vstd::prelude::*;

verus! {

/// Samples of a latent frame.
pub const SAMPLES_PER_LATENT: usize = 800;

pub const BLOCKS: usize = 5;

pub const UNITS: usize = 3;

/// Kernel of a residual unit's dilated convolution.
pub const RESIDUAL_KERNEL: usize = 7;

/// Heads of the attention head's causal attention.
pub const HEADS: usize = 8;

/// Hidden features of the GeGLU, in latent channels.
pub const MLP_RATIO: usize = 2;

/// Samples one encoder block folds into one output sample.
pub open spec fn stride_of(block: int) -> usize {
    if block == 0 {
        2
    } else if block == 1 || block == 2 {
        4
    } else {
        5
    }
}

/// Dilation of a residual unit of a block.
pub open spec fn dilation_of(unit: int) -> usize {
    if unit == 0 {
        1
    } else if unit == 1 {
        3
    } else {
        9
    }
}

fn stride(block: usize) -> (stride: usize)
    ensures
        stride == stride_of(block as int),
{
    if block == 0 {
        2
    } else if block == 1 || block == 2 {
        4
    } else {
        5
    }
}

fn dilation(unit: usize) -> (dilation: usize)
    ensures
        dilation == dilation_of(unit as int),
{
    if unit == 0 {
        1
    } else if unit == 1 {
        3
    } else {
        9
    }
}

/// Samples that the first `blocks` blocks fold into one.
pub open spec fn folded(blocks: int) -> int
    decreases blocks,
{
    if blocks <= 0 {
        1
    } else {
        folded(blocks - 1) * stride_of(blocks - 1)
    }
}

/// What the blocks fold into one sample.
pub proof fn folds()
    ensures
        folded(0) == 1,
        folded(1) == 2,
        folded(2) == 8,
        folded(3) == 32,
        folded(4) == 160,
        folded(5) == 800,
{
    assert(folded(0) == 1);
    assert(folded(1) == 2);
    assert(folded(2) == 8);
    assert(folded(3) == 32);
    assert(folded(4) == 160);
}

/// The strides of the blocks come to the samples of a latent frame.
pub proof fn the_strides_fold_a_latent_frame()
    ensures
        folded(BLOCKS as int) == SAMPLES_PER_LATENT,
        folded(BLOCKS as int) == crate::audio_vae::samples_after(crate::audio_vae::STAGES as int),
{
    folds();
    crate::audio_vae::a_latent_frame_is_800_samples();
}

/// Whether the bytes of every tensor of a file can be counted.
pub open spec fn is_countable(file: Seq<TensorInfo>) -> bool {
    forall|i: int| 0 <= i < file.len() ==> checkpoint::elements((#[trigger] file[i]).shape@) * 4 <= usize::MAX
}

/// The elements of a tensor of a file.
pub open spec fn elements_of(file: Seq<TensorInfo>, name: Seq<char>) -> Result<usize, Seq<char>> {
    match checkpoint::place_of(file, name) {
        None => Err(model::missing_tensor(name)),
        Some(place) => Ok(checkpoint::elements(file[place].shape@) as usize),
    }
}

fn elements(file: &Vec<TensorInfo>, name: &str, rest: &str) -> (count: Result<usize, Error>)
    requires
        is_countable(file@),
    ensures
        checkpoint::gave(count, elements_of(file@, name@ + rest@)),
        count matches Ok(count) ==> count * 4 <= usize::MAX,
{
    let place: usize = checkpoint::need_part(file, name, rest)?;
    Ok(checkpoint::count_elements(&file[place].shape))
}

#[derive(Clone, Copy, Debug, PartialEq, Eq, Structural)]
pub struct Linear {
    pub inputs: usize,
    pub outputs: usize,
}

impl Linear {
    /// A linear layer of a weight of this shape and a bias of this many values.
    pub open spec fn of(shape: Seq<usize>, bias: int) -> Result<Linear, Seq<char>> {
        if shape.len() != 2 {
            Err("a linear layer has shape "@ + text::listed(shape))
        } else if bias != shape[0] {
            Err(
                "a linear layer of "@ + text::decimal(shape[0] as nat) + " outputs has "@ + text::decimal(bias as nat)
                    + " bias values"@,
            )
        } else {
            Ok(Linear { inputs: shape[1], outputs: shape[0] })
        }
    }

    pub fn new(shape: &Vec<usize>, bias: usize) -> (linear: Result<Linear, Error>)
        ensures
            checkpoint::gave(linear, Linear::of(shape@, bias as int)),
    {
        if shape.len() != 2 {
            let mut message = String::from_str("a linear layer has shape ");
            text::push_list(&mut message, shape);
            return Err(Error::Model(message));
        }
        if bias != shape[0] {
            let mut message = String::from_str("a linear layer of ");
            text::push_size(&mut message, shape[0]);
            message.append(" outputs has ");
            text::push_size(&mut message, bias);
            message.append(" bias values");
            return Err(Error::Model(message));
        }
        Ok(Linear { inputs: shape[1], outputs: shape[0] })
    }

    /// A linear layer of a file.
    pub open spec fn loaded(file: Seq<TensorInfo>, name: Seq<char>) -> Result<Linear, Seq<char>> {
        match checkpoint::place_of(file, name + ".weight"@) {
            None => Err(model::missing_tensor(name + ".weight"@)),
            Some(weight) => match elements_of(file, name + ".bias"@) {
                Err(words) => Err(words),
                Ok(bias) => Linear::of(file[weight].shape@, bias as int),
            },
        }
    }

    pub fn load(file: &Vec<TensorInfo>, name: &str) -> (linear: Result<Linear, Error>)
        requires
            is_countable(file@),
        ensures
            checkpoint::gave(linear, Linear::loaded(file@, name@)),
    {
        let weight: usize = checkpoint::need_part(file, name, ".weight")?;
        let bias: usize = elements(file, name, ".bias")?;
        Linear::new(&file[weight].shape, bias)
    }
}

/// The width of a layer norm of a file.
pub open spec fn norm_of(file: Seq<TensorInfo>, name: Seq<char>) -> Result<usize, Seq<char>> {
    match elements_of(file, name + ".weight"@) {
        Err(words) => Err(words),
        Ok(width) => if checkpoint::place_of(file, name + ".bias"@) is None {
            Err(model::missing_tensor(name + ".bias"@))
        } else {
            Ok(width)
        },
    }
}

fn norm(file: &Vec<TensorInfo>, name: &str) -> (width: Result<usize, Error>)
    requires
        is_countable(file@),
    ensures
        checkpoint::gave(width, norm_of(file@, name@)),
{
    let width: usize = elements(file, name, ".weight")?;
    checkpoint::need_part(file, name, ".bias")?;
    Ok(width)
}

/// Two Snake activations around a dilated convolution and a pointwise one, added to its input.
#[derive(Clone, Copy, Debug, PartialEq, Eq, Structural)]
pub struct ResidualUnit {
    /// The channels of the activations.
    pub before: usize,
    pub between: usize,
    pub dilated: Convolution,
    pub pointwise: Convolution,
    pub dilation: usize,
}

/// The units of a block by their numbers.
pub open spec fn unit_row(file: Seq<TensorInfo>, name: Seq<char>) -> spec_fn(int) -> Result<ResidualUnit, Seq<char>> {
    |unit: int| unit_of(file, checkpoint::numbered(name + ".block."@, unit as nat, ".block"@), dilation_of(unit))
}

/// A unit of a file.
pub open spec fn unit_of(file: Seq<TensorInfo>, name: Seq<char>, dilation: usize) -> Result<ResidualUnit, Seq<char>> {
    match elements_of(file, name + ".0.alpha"@) {
        Err(words) => Err(words),
        Ok(before) => match elements_of(file, name + ".2.alpha"@) {
            Err(words) => Err(words),
            Ok(between) => match Convolution::of(file, name + ".1"@, true) {
                Err(words) => Err(words),
                Ok(dilated) => match Convolution::of(file, name + ".3"@, true) {
                    Err(words) => Err(words),
                    Ok(pointwise) => Ok(ResidualUnit { before, between, dilated, pointwise, dilation }),
                },
            },
        },
    }
}

fn unit(file: &Vec<TensorInfo>, name: &str, dilation: usize) -> (unit: Result<ResidualUnit, Error>)
    requires
        is_countable(file@),
    ensures
        checkpoint::gave(unit, unit_of(file@, name@, dilation)),
{
    let before: usize = elements(file, name, ".0.alpha")?;
    let between: usize = elements(file, name, ".2.alpha")?;
    let dilated = Convolution::load(file, checkpoint::joined(name, ".1").as_str(), true)?;
    let pointwise = Convolution::load(file, checkpoint::joined(name, ".3").as_str(), true)?;
    Ok(ResidualUnit { before, between, dilated, pointwise, dilation })
}

fn units(file: &Vec<TensorInfo>, name: &str) -> (units: Result<Vec<ResidualUnit>, Error>)
    requires
        is_countable(file@),
    ensures
        checkpoint::gave_all(units, checkpoint::all_of(unit_row(file@, name@), UNITS as int)),
{
    let start = checkpoint::joined(name, ".block.");
    let ghost row = unit_row(file@, name@);
    let mut list: Vec<ResidualUnit> = Vec::new();
    for index in 0..UNITS
        invariant
            is_countable(file@),
            start@ == name@ + ".block."@,
            row == unit_row(file@, name@),
            checkpoint::all_of(row, index as int) == Ok::<Seq<ResidualUnit>, Seq<char>>(list@),
    {
        let whole = checkpoint::numbered_name(start.as_str(), index, ".block");
        match unit(file, whole.as_str(), dilation(index)) {
            Ok(one) => {
                list.push(one);
            },
            Err(error) => {
                proof {
                    checkpoint::a_refusal_stays(row, index + 1, UNITS as int);
                }
                return Err(error);
            },
        }
    }
    Ok(list)
}

/// Three residual units, then a Snake and a strided convolution that doubles the channels.
pub struct EncoderBlock {
    pub units: Vec<ResidualUnit>,
    /// The channels of the activation.
    pub activation: usize,
    pub downsample: Convolution,
    pub stride: usize,
}

/// What a block holds.
pub ghost struct BlockParts {
    pub units: Seq<ResidualUnit>,
    pub activation: usize,
    pub downsample: Convolution,
    pub stride: usize,
}

impl View for EncoderBlock {
    type V = BlockParts;

    open spec fn view(&self) -> BlockParts {
        BlockParts {
            units: self.units@,
            activation: self.activation,
            downsample: self.downsample,
            stride: self.stride,
        }
    }
}

/// A block of a file.
pub open spec fn block_of(file: Seq<TensorInfo>, name: Seq<char>, stride: usize) -> Result<BlockParts, Seq<char>> {
    match checkpoint::all_of(unit_row(file, name), UNITS as int) {
        Err(words) => Err(words),
        Ok(units) => match elements_of(file, name + ".block.3.alpha"@) {
            Err(words) => Err(words),
            Ok(activation) => match Convolution::of(file, name + ".block.4"@, true) {
                Err(words) => Err(words),
                Ok(downsample) => Ok(BlockParts { units, activation, downsample, stride }),
            },
        },
    }
}

fn block(file: &Vec<TensorInfo>, name: &str, stride: usize) -> (block: Result<EncoderBlock, Error>)
    requires
        is_countable(file@),
    ensures
        match block_of(file@, name@, stride) {
            Ok(parts) => block matches Ok(block) && block@ == parts,
            Err(words) => block matches Err(error) && error.says(words),
        },
{
    let units = units(file, name)?;
    let activation: usize = elements(file, name, ".block.3.alpha")?;
    let downsample = Convolution::load(file, checkpoint::joined(name, ".block.4").as_str(), true)?;
    Ok(EncoderBlock { units, activation, downsample, stride })
}

/// The blocks by their numbers.
pub open spec fn block_row(file: Seq<TensorInfo>, prefix: Seq<char>) -> spec_fn(int) -> Result<BlockParts, Seq<char>> {
    |index: int|
        block_of(
            file,
            checkpoint::numbered(prefix + "encoder.block."@, (index + 1) as nat, ""@),
            stride_of(index),
        )
}

/// What blocks hold.
pub open spec fn block_parts(blocks: Seq<EncoderBlock>) -> Seq<BlockParts> {
    Seq::new(blocks.len(), |i: int| blocks[i]@)
}

fn blocks(file: &Vec<TensorInfo>, prefix: &str) -> (blocks: Result<Vec<EncoderBlock>, Error>)
    requires
        is_countable(file@),
    ensures
        match checkpoint::all_of(block_row(file@, prefix@), BLOCKS as int) {
            Ok(parts) => blocks matches Ok(blocks) && block_parts(blocks@) == parts,
            Err(words) => blocks matches Err(error) && error.says(words),
        },
{
    let start = checkpoint::joined(prefix, "encoder.block.");
    let ghost row = block_row(file@, prefix@);
    let mut list: Vec<EncoderBlock> = Vec::new();
    assert(block_parts(list@) =~= Seq::empty());
    for index in 0..BLOCKS
        invariant
            is_countable(file@),
            start@ == prefix@ + "encoder.block."@,
            row == block_row(file@, prefix@),
            checkpoint::all_of(row, index as int) == Ok::<Seq<BlockParts>, Seq<char>>(block_parts(list@)),
    {
        let name = checkpoint::numbered_name(start.as_str(), index + 1, "");
        match block(file, name.as_str(), stride(index)) {
            Ok(one) => {
                let ghost before = list@;
                list.push(one);
                assert(block_parts(list@) =~= block_parts(before).push(one@));
            },
            Err(error) => {
                proof {
                    checkpoint::a_refusal_stays(row, index + 1, BLOCKS as int);
                }
                return Err(error);
            },
        }
    }
    Ok(list)
}

/// The posterior head: a causal attention whose heads are pooled onto the latent channels, a
/// projection of the features themselves, and a GeGLU.
#[derive(Clone, Copy, Debug, PartialEq, Eq, Structural)]
pub struct AttentionProjection {
    /// The widths of the norms.
    pub norm1: usize,
    pub norm3: usize,
    pub norm2: usize,
    pub qkv: Linear,
    pub attention_projection: Linear,
    pub projection: Linear,
    pub mlp_norm: usize,
    pub gate: Linear,
    pub value: Linear,
    pub output: Linear,
}

/// The shape of the joined query, key and value weight, and the values of their three biases.
pub open spec fn qkv_of(file: Seq<TensorInfo>, attention: Seq<char>) -> Result<(Seq<usize>, int), Seq<char>> {
    match checkpoint::place_of(file, attention + ".qkv.weight"@) {
        None => Err(model::missing_tensor(attention + ".qkv.weight"@)),
        Some(weight) => match elements_of(file, attention + ".q_bias"@) {
            Err(words) => Err(words),
            Ok(query) => match elements_of(file, attention + ".zero_k_bias"@) {
                Err(words) => Err(words),
                Ok(key) => match elements_of(file, attention + ".v_bias"@) {
                    Err(words) => Err(words),
                    Ok(value) => Ok((file[weight].shape@, query + key + value)),
                },
            },
        },
    }
}

/// The norms of the head.
pub open spec fn norms_of(file: Seq<TensorInfo>, prefix: Seq<char>) -> Result<(usize, usize, usize), Seq<char>> {
    match norm_of(file, prefix + "pre_block.norm1"@) {
        Err(words) => Err(words),
        Ok(norm1) => match norm_of(file, prefix + "pre_block.norm3"@) {
            Err(words) => Err(words),
            Ok(norm3) => match norm_of(file, prefix + "pre_block.norm2"@) {
                Err(words) => Err(words),
                Ok(norm2) => Ok((norm1, norm3, norm2)),
            },
        },
    }
}

/// The head of a file, its joined query, key and value being known.
pub open spec fn head_of(file: Seq<TensorInfo>, prefix: Seq<char>, shape: Seq<usize>, bias: int) -> Result<
    AttentionProjection,
    Seq<char>,
> {
    match norms_of(file, prefix) {
        Err(words) => Err(words),
        Ok((norm1, norm3, norm2)) => match Linear::of(shape, bias) {
            Err(words) => Err(words),
            Ok(qkv) => match Linear::loaded(file, prefix + "pre_block.attn.proj"@) {
                Err(words) => Err(words),
                Ok(attention_projection) => match Linear::loaded(file, prefix + "pre_block.proj"@) {
                    Err(words) => Err(words),
                    Ok(projection) => match mlp_of(file, prefix) {
                        Err(words) => Err(words),
                        Ok((mlp_norm, gate, value, output)) => Ok(
                            AttentionProjection {
                                norm1,
                                norm3,
                                norm2,
                                qkv,
                                attention_projection,
                                projection,
                                mlp_norm,
                                gate,
                                value,
                                output,
                            },
                        ),
                    },
                },
            },
        },
    }
}

/// The GeGLU of the head.
pub open spec fn mlp_of(file: Seq<TensorInfo>, prefix: Seq<char>) -> Result<(usize, Linear, Linear, Linear), Seq<char>> {
    match norm_of(file, prefix + "pre_block.mlp.norm"@) {
        Err(words) => Err(words),
        Ok(mlp_norm) => match Linear::loaded(file, prefix + "pre_block.mlp.w0"@) {
            Err(words) => Err(words),
            Ok(gate) => match Linear::loaded(file, prefix + "pre_block.mlp.w1"@) {
                Err(words) => Err(words),
                Ok(value) => match Linear::loaded(file, prefix + "pre_block.mlp.w2"@) {
                    Err(words) => Err(words),
                    Ok(output) => Ok((mlp_norm, gate, value, output)),
                },
            },
        },
    }
}

fn qkv(file: &Vec<TensorInfo>, attention: &str) -> (found: Result<(usize, usize), Error>)
    requires
        is_countable(file@),
    ensures
        match qkv_of(file@, attention@) {
            Ok((shape, bias)) => found matches Ok((place, count)) && place < file@.len()
                && file@[place as int].shape@ == shape && count == bias,
            Err(words) => found matches Err(error) && error.says(words),
        },
{
    let weight: usize = checkpoint::need_part(file, attention, ".qkv.weight")?;
    let query: usize = elements(file, attention, ".q_bias")?;
    let key: usize = elements(file, attention, ".zero_k_bias")?;
    let value: usize = elements(file, attention, ".v_bias")?;
    Ok((weight, query + key + value))
}

fn head(file: &Vec<TensorInfo>, prefix: &str, qkv: usize, bias: usize) -> (head: Result<AttentionProjection, Error>)
    requires
        is_countable(file@),
        qkv < file@.len(),
    ensures
        checkpoint::gave(head, head_of(file@, prefix@, file@[qkv as int].shape@, bias as int)),
{
    let norm1: usize = norm(file, checkpoint::joined(prefix, "pre_block.norm1").as_str())?;
    let norm3: usize = norm(file, checkpoint::joined(prefix, "pre_block.norm3").as_str())?;
    let norm2: usize = norm(file, checkpoint::joined(prefix, "pre_block.norm2").as_str())?;
    let qkv = Linear::new(&file[qkv].shape, bias)?;
    let attention_projection = Linear::load(file, checkpoint::joined(prefix, "pre_block.attn.proj").as_str())?;
    let projection = Linear::load(file, checkpoint::joined(prefix, "pre_block.proj").as_str())?;
    let mlp_norm: usize = norm(file, checkpoint::joined(prefix, "pre_block.mlp.norm").as_str())?;
    let gate = Linear::load(file, checkpoint::joined(prefix, "pre_block.mlp.w0").as_str())?;
    let value = Linear::load(file, checkpoint::joined(prefix, "pre_block.mlp.w1").as_str())?;
    let output = Linear::load(file, checkpoint::joined(prefix, "pre_block.mlp.w2").as_str())?;
    Ok(
        AttentionProjection {
            norm1,
            norm3,
            norm2,
            qkv,
            attention_projection,
            projection,
            mlp_norm,
            gate,
            value,
            output,
        },
    )
}

/// An encoder whose weights are on the device.
pub struct CudaAudioEncoder {
    pub input: Convolution,
    pub blocks: Vec<EncoderBlock>,
    /// The channels of the last activation.
    pub post_activation: usize,
    pub post: Convolution,
    pub head: AttentionProjection,
    pub mean_projection: Convolution,
    /// The values of the latent statistics.
    pub latents_mean: usize,
    pub latents_std: usize,
    pub features: usize,
    pub latent_channels: usize,
}

/// What an encoder holds.
pub ghost struct EncoderParts {
    pub input: Convolution,
    pub blocks: Seq<BlockParts>,
    pub post_activation: usize,
    pub post: Convolution,
    pub head: AttentionProjection,
    pub mean_projection: Convolution,
    pub latents_mean: usize,
    pub latents_std: usize,
    pub features: usize,
    pub latent_channels: usize,
}

impl View for CudaAudioEncoder {
    type V = EncoderParts;

    open spec fn view(&self) -> EncoderParts {
        EncoderParts {
            input: self.input,
            blocks: block_parts(self.blocks@),
            post_activation: self.post_activation,
            post: self.post,
            head: self.head,
            mean_projection: self.mean_projection,
            latents_mean: self.latents_mean,
            latents_std: self.latents_std,
            features: self.features,
            latent_channels: self.latent_channels,
        }
    }
}

/// The encoder of a file, or why there is none, but for the check of its shapes.
pub open spec fn parts_of(file: Seq<TensorInfo>, prefix: Seq<char>) -> Result<EncoderParts, Seq<char>> {
    match Convolution::of(file, prefix + "encoder.block.0"@, true) {
        Err(words) => Err(words),
        Ok(input) => match checkpoint::all_of(block_row(file, prefix), BLOCKS as int) {
            Err(words) => Err(words),
            Ok(blocks) => match Convolution::of(file, prefix + "encoder.block.7"@, true) {
                Err(words) => Err(words),
                Ok(post) => match qkv_of(file, prefix + "pre_block.attn"@) {
                    Err(words) => Err(words),
                    Ok((shape, bias)) => match head_of(file, prefix, shape, bias) {
                        Err(words) => Err(words),
                        Ok(head) => match end_of(file, prefix) {
                            Err(words) => Err(words),
                            Ok((mean_projection, latents_mean, latents_std, post_activation)) => Ok(
                                EncoderParts {
                                    input,
                                    blocks,
                                    post_activation,
                                    post,
                                    head,
                                    mean_projection,
                                    latents_mean,
                                    latents_std,
                                    features: post.outputs,
                                    latent_channels: head.projection.outputs,
                                },
                            ),
                        },
                    },
                },
            },
        },
    }
}

/// What a file holds behind the head.
pub open spec fn end_of(file: Seq<TensorInfo>, prefix: Seq<char>) -> Result<(Convolution, usize, usize, usize), Seq<char>> {
    match Convolution::of(file, prefix + "mean_proj"@, true) {
        Err(words) => Err(words),
        Ok(mean_projection) => match elements_of(file, prefix + "latents_mean"@) {
            Err(words) => Err(words),
            Ok(latents_mean) => match elements_of(file, prefix + "latents_std"@) {
                Err(words) => Err(words),
                Ok(latents_std) => match elements_of(file, prefix + "encoder.block.6.alpha"@) {
                    Err(words) => Err(words),
                    Ok(post_activation) => Ok((mean_projection, latents_mean, latents_std, post_activation)),
                },
            },
        },
    }
}

/// Channels doubled `times` times.
pub open spec fn doubled(channels: int, times: int) -> int
    decreases times,
{
    if times <= 0 {
        channels
    } else {
        2 * doubled(channels, times - 1)
    }
}

/// Whether a block has the shapes of one that this many channels come into.
pub open spec fn block_is_valid(block: BlockParts, channels: int) -> bool {
    &&& block.downsample.inputs == channels
    &&& block.downsample.outputs == 2 * channels
    &&& block.downsample.kernel == 2 * block.stride
    &&& forall|i: int|
        0 <= i < block.units.len() ==> (#[trigger] block.units[i]).dilated.kernel == RESIDUAL_KERNEL
            && block.units[i].dilated.inputs == channels && block.units[i].pointwise.kernel == 1
}

/// Whether the head has the shapes that the encode path relies on.
pub open spec fn head_is_valid(parts: EncoderParts) -> bool {
    &&& parts.post.inputs == doubled(parts.input.outputs as int, parts.blocks.len() as int)
    &&& parts.features % HEADS == 0
    &&& parts.head.qkv.inputs == parts.features
    &&& parts.head.qkv.outputs == 3 * parts.features
    &&& parts.head.gate.outputs == MLP_RATIO * parts.latent_channels
    &&& parts.mean_projection.kernel == 1
    &&& parts.mean_projection.inputs == parts.latent_channels
    &&& parts.latents_mean == parts.latent_channels
    &&& parts.latents_std == parts.latent_channels
}

/// Whether every block has its shapes.
pub open spec fn blocks_are_valid(parts: EncoderParts) -> bool {
    forall|i: int|
        0 <= i < parts.blocks.len() ==> block_is_valid(#[trigger] parts.blocks[i], doubled(parts.input.outputs as int, i))
}

/// What an encoder is refused for, if it is.
pub open spec fn refusal(parts: EncoderParts) -> Option<Seq<char>> {
    if parts.input.inputs != 1 {
        Some("the audio encoder does not take a single channel"@)
    } else if !blocks_are_valid(parts) {
        Some("the audio encoder's blocks do not match the H3 checkpoint"@)
    } else if !head_is_valid(parts) {
        Some("the audio encoder's head does not match the H3 checkpoint"@)
    } else {
        None
    }
}

fn is_block_valid(block: &EncoderBlock, channels: usize) -> (valid: bool)
    requires
        2 * block.stride <= usize::MAX,
    ensures
        valid == block_is_valid(block@, channels as int),
{
    let downsample = block.downsample;
    if downsample.inputs != channels || downsample.outputs % 2 != 0 || downsample.outputs / 2 != channels
        || downsample.kernel != 2 * block.stride {
        return false;
    }
    let count: usize = block.units.len();
    for index in 0..count
        invariant
            count == block.units@.len(),
            forall|i: int|
                0 <= i < index ==> (#[trigger] block.units@[i]).dilated.kernel == RESIDUAL_KERNEL
                    && block.units@[i].dilated.inputs == channels && block.units@[i].pointwise.kernel == 1,
    {
        let unit = block.units[index];
        if unit.dilated.kernel != RESIDUAL_KERNEL || unit.dilated.inputs != channels || unit.pointwise.kernel != 1 {
            assert(block@.units[index as int] == unit);
            return false;
        }
    }
    true
}

impl CudaAudioEncoder {
    /// Checks the shapes the encode path relies on.
    pub fn validate(&self) -> (result: Result<(), Error>)
        requires
            forall|i: int| 0 <= i < self.blocks@.len() ==> 2 * (#[trigger] self.blocks@[i]).stride <= usize::MAX,
        ensures
            match refusal(self@) {
                Some(words) => result matches Err(error) && error.says(words),
                None => result is Ok,
            },
    {
        let ghost parts = self@;
        if self.input.inputs != 1 {
            return Err(Error::Model(String::from_str("the audio encoder does not take a single channel")));
        }
        let mut channels: usize = self.input.outputs;
        let count: usize = self.blocks.len();
        for index in 0..count
            invariant
                count == self.blocks@.len(),
                parts == self@,
                self.input.inputs == 1,
                forall|i: int| 0 <= i < self.blocks@.len() ==> 2 * (#[trigger] self.blocks@[i]).stride <= usize::MAX,
                channels == doubled(self.input.outputs as int, index as int),
                forall|i: int|
                    0 <= i < index ==> block_is_valid(
                        #[trigger] parts.blocks[i],
                        doubled(self.input.outputs as int, i),
                    ),
        {
            assert(parts.blocks[index as int] == self.blocks@[index as int]@);
            if !is_block_valid(&self.blocks[index], channels) {
                return Err(
                    Error::Model(String::from_str("the audio encoder's blocks do not match the H3 checkpoint")),
                );
            }
            channels = self.blocks[index].downsample.outputs;
        }
        assert(blocks_are_valid(parts));
        let head = self.head;
        if self.post.inputs != channels || self.features % HEADS != 0 || head.qkv.inputs != self.features
            || head.qkv.outputs % 3 != 0 || head.qkv.outputs / 3 != self.features || head.gate.outputs % MLP_RATIO != 0
            || head.gate.outputs / MLP_RATIO != self.latent_channels || self.mean_projection.kernel != 1
            || self.mean_projection.inputs != self.latent_channels || self.latents_mean != self.latent_channels
            || self.latents_std != self.latent_channels {
            return Err(Error::Model(String::from_str("the audio encoder's head does not match the H3 checkpoint")));
        }
        Ok(())
    }

    /// Loads the encoder half of an audio VAE checkpoint. `prefix` is prepended to every
    /// checkpoint tensor name.
    pub fn load(file: &Vec<TensorInfo>, prefix: &str) -> (encoder: Result<CudaAudioEncoder, Error>)
        requires
            is_countable(file@),
        ensures
            match parts_of(file@, prefix@) {
                Err(words) => encoder matches Err(error) && error.says(words),
                Ok(parts) => match refusal(parts) {
                    Some(words) => encoder matches Err(error) && error.says(words),
                    None => encoder matches Ok(encoder) && encoder@ == parts,
                },
            },
    {
        let input = Convolution::load(file, checkpoint::joined(prefix, "encoder.block.0").as_str(), true)?;
        let blocks = blocks(file, prefix)?;
        let post = Convolution::load(file, checkpoint::joined(prefix, "encoder.block.7").as_str(), true)?;
        let (weight, bias) = qkv(file, checkpoint::joined(prefix, "pre_block.attn").as_str())?;
        let head = head(file, prefix, weight, bias)?;
        let mean_projection = Convolution::load(file, checkpoint::joined(prefix, "mean_proj").as_str(), true)?;
        let latents_mean: usize = elements(file, prefix, "latents_mean")?;
        let latents_std: usize = elements(file, prefix, "latents_std")?;
        let post_activation: usize = elements(file, prefix, "encoder.block.6.alpha")?;
        let encoder = CudaAudioEncoder {
            features: post.outputs,
            latent_channels: head.projection.outputs,
            mean_projection,
            latents_mean,
            latents_std,
            input,
            blocks,
            post_activation,
            post,
            head,
        };
        proof {
            let row = block_row(file@, prefix@);
            assert forall|i: int| 0 <= i < encoder.blocks@.len() implies 2 * (#[trigger] encoder.blocks@[i]).stride
                <= usize::MAX by {
                assert(block_parts(encoder.blocks@)[i] == encoder.blocks@[i]@);
                checkpoint::a_row_is_long(row, BLOCKS as int);
                checkpoint::parts_are_numbered(row, BLOCKS as int, i);
            }
        }
        encoder.validate()?;
        Ok(encoder)
    }
}

} // verus!
