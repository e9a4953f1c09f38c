//! Video VAE decoding on the GPU.
//!
//! Every spatial tile of a temporal chunk runs through the ViT decoder as one batch. The residual stream stays in
//! FP32 and the linear layers take FP16 activations: FP16 weights run through cuBLASLt, and the INT8 ConvRot weights
//! of the quantized checkpoint through the INT8 GEMM. Tiles and chunks are blended in FP32 into pixels.
use crate::arithmetic;
use crate::attention;
use crate::attention::{AttentionLayout, AttentionOffsets};
use crate::checkpoint;
use crate::checkpoint::TensorInfo;
use crate::gemm;
use crate::model;
use crate::model::{DType, DeviceTensors, Error, Quantization, CONVROT_GROUP};
use crate::plan;
use crate::shard::Run;
use crate::text;
use vstd::prelude::*;

verus! {

pub const DEFAULT_TILE_SIZE: usize = 256;

pub const DEFAULT_TILE_OVERLAP_MIN: usize = 64;

pub const HEAD_DIM: usize = 64;

/// Rotary frequencies per axis. Three axes rotate 3 × 8 pairs, the first 48 of the 64 head dimensions.
pub const ROPE_FREQUENCIES: usize = 8;

pub const OUTPUT_CHANNELS: usize = 3;

/// Pixels of a latent pixel, along each side.
pub const SPATIAL_RATIO: usize = 16;

/// Frames of a latent frame.
pub const TEMPORAL_RATIO: usize = 4;

/// Features of one decoded patch: 3 channels × 4 frames × 16 × 16 pixels.
pub const PATCH_FEATURES: usize = 3072;

/// Latent frames of a chunk, and those it shares with the next.
pub const CHUNK_TOKENS: usize = 5;

pub const CHUNK_OVERLAP_TOKENS: usize = 2;

/// Frames of a chunk's own latent frames, of which the first are padding.
pub const CHUNK_FRAMES: usize = 20;

pub const FRAME_PRE_PADDING: usize = 3;

/// Frames a chunk shares with the next.
pub const FRAME_OVERLAP: usize = 5;

#[derive(Clone, Copy, Debug, PartialEq, Eq, Structural)]
pub struct VideoDecoderConfig {
    pub latent_channels: usize,
    pub dim: usize,
    pub heads: usize,
    pub layers: usize,
    pub ffn: usize,
    pub registers: usize,
}

impl VideoDecoderConfig {
    /// The sizes by their names.
    pub open spec fn words(self) -> Seq<char> {
        "VideoDecoderConfig { latent_channels: "@ + text::decimal(self.latent_channels as nat) + ", dim: "@
            + text::decimal(self.dim as nat) + ", heads: "@ + text::decimal(self.heads as nat) + ", layers: "@
            + text::decimal(self.layers as nat) + ", ffn: "@ + text::decimal(self.ffn as nat) + ", registers: "@
            + text::decimal(self.registers as nat) + " }"@
    }

    fn push_words(&self, message: &mut String)
        ensures
            final(message)@ == old(message)@ + self.words(),
    {
        let ghost before = message@;
        message.append("VideoDecoderConfig { latent_channels: ");
        text::push_size(message, self.latent_channels);
        message.append(", dim: ");
        text::push_size(message, self.dim);
        message.append(", heads: ");
        text::push_size(message, self.heads);
        message.append(", layers: ");
        text::push_size(message, self.layers);
        message.append(", ffn: ");
        text::push_size(message, self.ffn);
        message.append(", registers: ");
        text::push_size(message, self.registers);
        message.append(" }");
        assert(message@ =~= before + self.words());
    }
}

/// The shape of a tensor of the file, where it is there.
pub open spec fn shape_of(file: Seq<TensorInfo>, name: Seq<char>) -> Option<Seq<usize>> {
    match checkpoint::place_of(file, name) {
        Some(place) => Some(file[place].shape@),
        None => None,
    }
}

/// Whether `count` things have the shape that a decoder is read from.
pub open spec fn has_shape(file: Seq<TensorInfo>, name: Seq<char>, dimensions: int) -> bool {
    shape_of(file, name) matches Some(shape) ==> shape.len() >= dimensions
}

/// Whether `config` is the decoder of a checkpoint file.
pub open spec fn is_config(file: Seq<TensorInfo>, prefix: Seq<char>, config: VideoDecoderConfig) -> bool {
    &&& shape_of(file, prefix + "decoder.x_embedder.weight"@) matches Some(embedder)
    &&& shape_of(file, prefix + "decoder.transformer_blocks.0.ff.w2.weight"@) matches Some(down)
    &&& shape_of(file, prefix + "decoder.register_tokens"@) matches Some(registers)
    &&& config.latent_channels == embedder[1]
    &&& config.dim == embedder[0]
    &&& config.heads == embedder[0] / HEAD_DIM
    &&& checkpoint::holds_numbered(
        file,
        prefix + "decoder.transformer_blocks."@,
        ".scale1"@,
        config.layers as nat,
    )
    &&& config.ffn == down[1]
    &&& config.registers == registers[1]
}

/// What is said of a decoder that cannot run with these tiles.
pub open spec fn config_refusal(
    file: Seq<TensorInfo>,
    prefix: Seq<char>,
    config: VideoDecoderConfig,
    tile_size: usize,
    overlap_min: usize,
) -> Option<Seq<char>> {
    let output = prefix + "decoder.proj_out.weight"@;
    if config.dim % HEAD_DIM != 0 {
        Some("unsupported video decoder "@ + config.words())
    } else {
        match shape_of(file, output) {
            None => Some(model::missing_tensor(output)),
            Some(shape) => if shape[0] != PATCH_FEATURES {
                Some("unsupported video decoder "@ + config.words())
            } else if tile_size % SPATIAL_RATIO != 0 || overlap_min % SPATIAL_RATIO != 0 {
                Some(
                    "tile size "@ + text::decimal(tile_size as nat) + " and overlap "@ + text::decimal(
                        overlap_min as nat,
                    ) + " must be multiples of "@ + text::decimal(SPATIAL_RATIO as nat),
                )
            } else {
                None
            },
        }
    }
}

/// The first of the tensors a decoder is read from that is missing.
pub open spec fn missing_for_config(file: Seq<TensorInfo>, prefix: Seq<char>) -> Option<Seq<char>> {
    let embedder = prefix + "decoder.x_embedder.weight"@;
    let down = prefix + "decoder.transformer_blocks.0.ff.w2.weight"@;
    let registers = prefix + "decoder.register_tokens"@;
    if checkpoint::place_of(file, embedder) is None {
        Some(embedder)
    } else if checkpoint::place_of(file, down) is None {
        Some(down)
    } else if checkpoint::place_of(file, registers) is None {
        Some(registers)
    } else {
        None
    }
}

fn prefixed(prefix: &str, name: &str) -> (whole: String)
    ensures
        whole@ == prefix@ + name@,
{
    let mut whole = String::from_str(prefix);
    whole.append(name);
    whole
}

/// The decoder of a checkpoint file, or why there is none.
pub fn decoder_config(file: &Vec<TensorInfo>, prefix: &str, tile_size: usize, overlap_min: usize) -> (config: Result<
    VideoDecoderConfig,
    Error,
>)
    requires
        has_shape(file@, prefix@ + "decoder.x_embedder.weight"@, 2),
        has_shape(file@, prefix@ + "decoder.transformer_blocks.0.ff.w2.weight"@, 2),
        has_shape(file@, prefix@ + "decoder.register_tokens"@, 2),
        has_shape(file@, prefix@ + "decoder.proj_out.weight"@, 1),
    ensures
        match missing_for_config(file@, prefix@) {
            Some(name) => config matches Err(error) && error.says(model::missing_tensor(name)),
            None => match config {
                Ok(config) => is_config(file@, prefix@, config) && config_refusal(
                    file@,
                    prefix@,
                    config,
                    tile_size,
                    overlap_min,
                ) is None,
                Err(error) => exists|config: VideoDecoderConfig|
                    is_config(file@, prefix@, config) && (#[trigger] config_refusal(
                        file@,
                        prefix@,
                        config,
                        tile_size,
                        overlap_min,
                    ) matches Some(words) && error.says(words)),
            },
        },
{
    let embedder: usize = checkpoint::need(file, prefixed(prefix, "decoder.x_embedder.weight"))?;
    let down: usize = checkpoint::need(file, prefixed(prefix, "decoder.transformer_blocks.0.ff.w2.weight"))?;
    let registers: usize = checkpoint::need(file, prefixed(prefix, "decoder.register_tokens"))?;
    let start = prefixed(prefix, "decoder.transformer_blocks.");
    let config = VideoDecoderConfig {
        latent_channels: file[embedder].shape[1],
        dim: file[embedder].shape[0],
        heads: file[embedder].shape[0] / HEAD_DIM,
        layers: checkpoint::count_numbered(file, start.as_str(), ".scale1"),
        ffn: file[down].shape[1],
        registers: file[registers].shape[1],
    };
    assert(is_config(file@, prefix@, config));
    let ghost refusal = config_refusal(file@, prefix@, config, tile_size, overlap_min);
    if config.dim % HEAD_DIM != 0 {
        let mut message = String::from_str("unsupported video decoder ");
        config.push_words(&mut message);
        assert(message@ == refusal->0);
        return Err(Error::Model(message));
    }
    let output: usize = match checkpoint::need(file, prefixed(prefix, "decoder.proj_out.weight")) {
        Ok(place) => place,
        Err(error) => {
            assert(refusal is Some && error.says(refusal->0));
            return Err(error);
        },
    };
    if file[output].shape[0] != PATCH_FEATURES {
        let mut message = String::from_str("unsupported video decoder ");
        config.push_words(&mut message);
        assert(message@ == refusal->0);
        return Err(Error::Model(message));
    }
    if tile_size % SPATIAL_RATIO != 0 || overlap_min % SPATIAL_RATIO != 0 {
        let mut message = String::from_str("tile size ");
        text::push_size(&mut message, tile_size);
        message.append(" and overlap ");
        text::push_size(&mut message, overlap_min);
        message.append(" must be multiples of ");
        text::push_size(&mut message, SPATIAL_RATIO);
        assert(message@ == refusal->0);
        return Err(Error::Model(message));
    }
    Ok(config)
}

/// What is made of a checkpoint tensor.
pub enum DecoderTensor {
    /// It is none of the decoder's, or folded into another.
    Skipped,
    /// It says how a layer is quantized.
    Quantization(String),
    /// It goes to the device as it is, under this name.
    Uploaded(String),
    /// The bias of an INT8 layer: it stays FP32, rounded through FP16.
    Rounded(String),
    /// It goes to the device in FP16.
    Halved(String),
}

/// The name of a decoder tensor without its prefixes.
pub open spec fn decoder_name(name: Seq<char>, prefix: Seq<char>) -> Option<Seq<char>> {
    match text::behind(name, prefix) {
        Some(rest) => text::behind(rest, "decoder."@),
        None => None,
    }
}

/// Whether a name is that of an INT8 layer's bias.
pub open spec fn is_int8_bias(file: Seq<TensorInfo>, prefix: Seq<char>, name: Seq<char>) -> bool {
    text::ahead(name, ".bias"@) matches Some(layer) && (checkpoint::place_of(
        file,
        prefix + "decoder."@ + layer + ".weight"@,
    ) matches Some(place) && file[place].dtype == DType::I8)
}

/// What is made of a checkpoint tensor, by its name.
pub ghost enum DecoderPart {
    Skipped,
    Quantization(Seq<char>),
    Uploaded(Seq<char>),
    Rounded(Seq<char>),
    Halved(Seq<char>),
}

impl View for DecoderTensor {
    type V = DecoderPart;

    open spec fn view(&self) -> DecoderPart {
        match self {
            DecoderTensor::Skipped => DecoderPart::Skipped,
            DecoderTensor::Quantization(name) => DecoderPart::Quantization(name@),
            DecoderTensor::Uploaded(name) => DecoderPart::Uploaded(name@),
            DecoderTensor::Rounded(name) => DecoderPart::Rounded(name@),
            DecoderTensor::Halved(name) => DecoderPart::Halved(name@),
        }
    }
}

/// What is made of the checkpoint tensor at `place`, or why there is nothing to make of it.
pub open spec fn decoder_part(file: Seq<TensorInfo>, prefix: Seq<char>, place: int) -> Result<DecoderPart, Seq<char>> {
    let info = file[place];
    match decoder_name(info.name@, prefix) {
        None => Ok(DecoderPart::Skipped),
        Some(name) => if text::begins(name, "x_embedder."@) || name == "mask_token"@ {
            Ok(DecoderPart::Skipped)
        } else if text::ends(name, ".comfy_quant"@) {
            Ok(DecoderPart::Quantization(name))
        } else if info.dtype == DType::F16 || info.dtype == DType::I8 || (info.dtype == DType::F32 && text::ends(
            name,
            ".weight_scale"@,
        )) {
            Ok(DecoderPart::Uploaded(name))
        } else if info.dtype == DType::F32 {
            if is_int8_bias(file, prefix, name) {
                Ok(DecoderPart::Rounded(name))
            } else {
                Ok(DecoderPart::Halved(name))
            }
        } else {
            Err("decoder."@ + name + ": unsupported dtype "@ + info.dtype.letters())
        },
    }
}

/// What is made of the checkpoint tensor at `place`.
pub fn decoder_tensor(file: &Vec<TensorInfo>, prefix: &str, place: usize) -> (tensor: Result<DecoderTensor, Error>)
    requires
        place < file@.len(),
    ensures
        match decoder_part(file@, prefix@, place as int) {
            Ok(part) => tensor matches Ok(tensor) && tensor@ == part,
            Err(words) => tensor matches Err(error) && error.says(words),
        },
{
    let rest = match text::without_start(file[place].name.as_str(), prefix) {
        Some(rest) => rest,
        None => {
            return Ok(DecoderTensor::Skipped);
        },
    };
    let name = match text::without_start(rest.as_str(), "decoder.") {
        Some(name) => name,
        None => {
            return Ok(DecoderTensor::Skipped);
        },
    };
    if text::without_start(name.as_str(), "x_embedder.").is_some() || name == String::from_str("mask_token") {
        return Ok(DecoderTensor::Skipped);
    }
    if text::ends_with(name.as_str(), ".comfy_quant") {
        return Ok(DecoderTensor::Quantization(name));
    }
    let dtype = file[place].dtype;
    if dtype == DType::F16 || dtype == DType::I8 || (dtype == DType::F32 && text::ends_with(
        name.as_str(),
        ".weight_scale",
    )) {
        return Ok(DecoderTensor::Uploaded(name));
    }
    if dtype != DType::F32 {
        let mut message = String::from_str("decoder.");
        message.append(name.as_str());
        message.append(": unsupported dtype ");
        message.append(dtype.name());
        return Err(Error::Model(message));
    }
    if let Some(layer) = text::without_end(name.as_str(), ".bias") {
        let mut weight = prefixed(prefix, "decoder.");
        weight.append(layer.as_str());
        weight.append(".weight");
        if let Some(found) = checkpoint::find(file, &weight) {
            if file[found].dtype == DType::I8 {
                return Ok(DecoderTensor::Rounded(name));
            }
        }
    }
    Ok(DecoderTensor::Halved(name))
}

/// What is made of the tensors of a file by their places, where the quantization of every layer is the one that the
/// INT8 layers have.
pub open spec fn decoder_row(
    file: Seq<TensorInfo>,
    prefix: Seq<char>,
    quantizations: Seq<Option<Quantization>>,
) -> spec_fn(int) -> Result<DecoderPart, Seq<char>> {
    |place: int|
        match decoder_part(file, prefix, place) {
            Ok(DecoderPart::Quantization(name)) => match model::quantization_refusal(name, quantizations[place]->0) {
                Some(words) => Err(words),
                None => Ok(DecoderPart::Quantization(name)),
            },
            part => part,
        }
}

/// What is made of tensors.
pub open spec fn decoder_parts(list: Seq<DecoderTensor>) -> Seq<DecoderPart> {
    Seq::new(list.len(), |i: int| list[i]@)
}

/// Whether the tensor at `place` is an INT8 weight of the decoder.
pub open spec fn is_int8_weight(file: Seq<TensorInfo>, prefix: Seq<char>, place: int) -> bool {
    decoder_part(file, prefix, place) matches Ok(DecoderPart::Uploaded(_)) && file[place].dtype == DType::I8
}

/// Whether one of the first `count` tensors is an INT8 weight of the decoder.
pub open spec fn has_int8(file: Seq<TensorInfo>, prefix: Seq<char>, count: int) -> bool {
    exists|i: int| 0 <= i < count && #[trigger] is_int8_weight(file, prefix, i)
}

/// How a decoder is loaded.
pub struct DecoderLoad {
    pub config: VideoDecoderConfig,
    /// What is made of each tensor of the file.
    pub tensors: Vec<DecoderTensor>,
    /// Whether any linear layer has INT8 ConvRot weights.
    pub quantized: bool,
}

fn load_tensors(file: &Vec<TensorInfo>, prefix: &str, quantizations: &Vec<Option<Quantization>>) -> (found: Result<
    (Vec<DecoderTensor>, bool),
    Error,
>)
    requires
        quantizations@.len() == file@.len(),
        forall|i: int|
            0 <= i < file@.len() ==> ((#[trigger] decoder_part(file@, prefix@, i)) matches Ok(DecoderPart::Quantization(_))
                ==> quantizations@[i] is Some),
    ensures
        match checkpoint::all_of(decoder_row(file@, prefix@, quantizations@), file@.len() as int) {
            Ok(parts) => found matches Ok((list, quantized)) && decoder_parts(list@) == parts && quantized == has_int8(
                file@,
                prefix@,
                file@.len() as int,
            ),
            Err(words) => found matches Err(error) && error.says(words),
        },
{
    let ghost row = decoder_row(file@, prefix@, quantizations@);
    let mut list: Vec<DecoderTensor> = Vec::new();
    assert(decoder_parts(list@) =~= Seq::<DecoderPart>::empty());
    let mut quantized: bool = false;
    let count: usize = file.len();
    for place in 0..count
        invariant
            count == file@.len(),
            quantizations@.len() == file@.len(),
            row == decoder_row(file@, prefix@, quantizations@),
            forall|i: int|
                0 <= i < file@.len() ==> ((#[trigger] decoder_part(file@, prefix@, i)) matches Ok(
                    DecoderPart::Quantization(_),
                ) ==> quantizations@[i] is Some),
            checkpoint::all_of(row, place as int) == Ok::<Seq<DecoderPart>, Seq<char>>(decoder_parts(list@)),
            quantized == has_int8(file@, prefix@, place as int),
    {
        let tensor = match decoder_tensor(file, prefix, place) {
            Ok(tensor) => tensor,
            Err(error) => {
                proof {
                    checkpoint::a_refusal_stays(row, place + 1, count as int);
                }
                return Err(error);
            },
        };
        assert(decoder_part(file@, prefix@, place as int) == Ok::<DecoderPart, Seq<char>>(tensor@));
        if let DecoderTensor::Quantization(name) = &tensor {
            if let Some(quantization) = &quantizations[place] {
                if let Err(error) = model::check_quantization(name.as_str(), quantization) {
                    proof {
                        checkpoint::a_refusal_stays(row, place + 1, count as int);
                    }
                    return Err(error);
                }
            }
        }
        let ghost (before, told) = (list@, quantized);
        if let DecoderTensor::Uploaded(_) = &tensor {
            if file[place].dtype == DType::I8 {
                quantized = true;
            }
        }
        list.push(tensor);
        assert(decoder_parts(list@) =~= decoder_parts(before).push(tensor@));
        assert(quantized == (told || is_int8_weight(file@, prefix@, place as int)));
    }
    Ok((list, quantized))
}

/// The tiles along one side of a picture.
pub struct TileAxis {
    /// The first pixels of the tiles.
    pub starts: Vec<usize>,
    /// The pixels each tile shares with the next.
    pub overlaps: Vec<usize>,
    /// The pixels of a tile.
    pub length: usize,
}

impl TileAxis {
    /// Whether the tiles lie on latent pixels, inside a side of this many.
    pub open spec fn lies_in(self, latent: int) -> bool {
        &&& self.starts@.len() > 0
        &&& self.length % SPATIAL_RATIO == 0
        &&& self.length > 0
        &&& forall|i: int|
            0 <= i < self.starts@.len() ==> (#[trigger] self.starts@[i]) / SPATIAL_RATIO + self.length / SPATIAL_RATIO
                <= latent
    }
}

/// The tile grid of one decode call.
pub struct TileGrid {
    pub rows: TileAxis,
    pub columns: TileAxis,
}

impl TileGrid {
    pub open spec fn tiles(self) -> int {
        (self.rows.starts@.len() * self.columns.starts@.len()) as int
    }

    /// The overlaps of an axis and a spare element, which keeps their buffer non-empty for a single tile.
    pub fn padded(overlaps: &Vec<usize>) -> (values: Vec<usize>)
        ensures
            values@ == overlaps@.push(0),
    {
        let mut values = overlaps.clone();
        assert(values@ =~= overlaps@);
        values.push(0);
        values
    }

    pub fn count(&self) -> (tiles: usize)
        requires
            self.tiles() <= usize::MAX,
        ensures
            tiles == self.tiles(),
    {
        self.rows.starts.len() * self.columns.starts.len()
    }

    pub fn latent_height(&self) -> (height: usize)
        ensures
            height == self.rows.length / SPATIAL_RATIO,
    {
        self.rows.length / SPATIAL_RATIO
    }

    pub fn latent_width(&self) -> (width: usize)
        ensures
            width == self.columns.length / SPATIAL_RATIO,
    {
        self.columns.length / SPATIAL_RATIO
    }
}

/// The bytes of the buffers of one chunk of tiles.
#[derive(Clone, Copy, Debug, PartialEq, Eq, Structural)]
pub struct VaeWorkspace {
    pub latent_rows: usize,
    pub residual: usize,
    pub normalized: usize,
    pub qkv: usize,
    pub attention: usize,
    pub delta: usize,
    pub expanded: usize,
    pub activated: usize,
    pub projected: usize,
    /// Rotated INT8 activations and their row scales for INT8 layers.
    pub quantized: usize,
    pub scales: usize,
}

impl VaeWorkspace {
    /// What every buffer holds. INT8 decoders write SwiGLU straight from the GEMM.
    pub open spec fn sized(self, config: VideoDecoderConfig, tokens: int, quantized: bool) -> bool {
        let rows = if quantized {
            tokens
        } else {
            1
        };
        &&& self.latent_rows == tokens * config.latent_channels * 2
        &&& self.residual == tokens * config.dim * 4
        &&& self.normalized == tokens * config.dim * 2
        &&& self.qkv == tokens * (3 * config.dim) * 2
        &&& self.attention == tokens * config.dim * 2
        &&& self.delta == tokens * config.dim * 2
        &&& self.expanded == (if quantized {
            1
        } else {
            tokens * (2 * config.ffn) * 2
        })
        &&& self.activated == tokens * config.ffn * 2
        &&& self.projected == tokens * PATCH_FEATURES * 2
        &&& self.quantized == rows * arithmetic::max(config.dim as int, config.ffn as int)
        &&& self.scales == rows * 4
    }

    /// Whether the sizes can be counted.
    pub open spec fn countable(config: VideoDecoderConfig, tokens: int) -> bool {
        &&& 3 * config.dim <= usize::MAX
        &&& 2 * config.ffn <= usize::MAX
        &&& tokens * config.latent_channels * 2 <= usize::MAX
        &&& tokens * config.dim * 4 <= usize::MAX
        &&& tokens * (3 * config.dim) * 2 <= usize::MAX
        &&& tokens * (2 * config.ffn) * 2 <= usize::MAX
        &&& tokens * PATCH_FEATURES * 2 <= usize::MAX
        &&& config.dim <= usize::MAX
        &&& config.ffn <= usize::MAX
    }

    pub fn new(config: &VideoDecoderConfig, tokens: usize, quantized: bool) -> (workspace: VaeWorkspace)
        requires
            VaeWorkspace::countable(*config, tokens as int),
        ensures
            workspace.sized(*config, tokens as int, quantized),
    {
        let dim: usize = config.dim;
        let ffn: usize = config.ffn;
        let widest: usize = arithmetic::greatest(dim, ffn);
        proof {
            assert(0 <= tokens * dim && tokens * dim * 2 <= tokens * dim * 4) by (nonlinear_arith)
                requires
                    tokens >= 0,
                    dim >= 0,
            ;
            assert(0 <= tokens * ffn && tokens * ffn * 2 <= tokens * (2 * ffn) * 2) by (nonlinear_arith)
                requires
                    tokens >= 0,
                    ffn >= 0,
            ;
            assert(0 <= tokens * widest <= usize::MAX);
        }
        let rows: usize = if quantized {
            tokens
        } else {
            1
        };
        VaeWorkspace {
            latent_rows: tokens * config.latent_channels * 2,
            residual: tokens * dim * 4,
            normalized: tokens * dim * 2,
            qkv: tokens * (3 * dim) * 2,
            attention: tokens * dim * 2,
            delta: tokens * dim * 2,
            expanded: if quantized {
                1
            } else {
                tokens * (2 * ffn) * 2
            },
            activated: tokens * ffn * 2,
            projected: tokens * PATCH_FEATURES * 2,
            quantized: rows * widest,
            scales: rows * 4,
        }
    }
}

/// The linear layers of the decoder, by their block.
#[derive(Clone, Copy, Debug, PartialEq, Eq, Structural)]
pub enum VaeLayer {
    Qkv(usize),
    Out(usize),
    W1(usize),
    W2(usize),
    Project,
}

impl VaeLayer {
    pub open spec fn letters(self) -> Seq<char> {
        match self {
            VaeLayer::Qkv(layer) => block_name(layer, ".attn.to_qkv"@),
            VaeLayer::Out(layer) => block_name(layer, ".attn.to_out"@),
            VaeLayer::W1(layer) => block_name(layer, ".ff.w1"@),
            VaeLayer::W2(layer) => block_name(layer, ".ff.w2"@),
            VaeLayer::Project => "proj_out"@,
        }
    }

    /// The name of the layer.
    pub fn name(self) -> (name: String)
        ensures
            name@ == self.letters(),
    {
        match self {
            VaeLayer::Qkv(layer) => named(layer, ".attn.to_qkv"),
            VaeLayer::Out(layer) => named(layer, ".attn.to_out"),
            VaeLayer::W1(layer) => named(layer, ".ff.w1"),
            VaeLayer::W2(layer) => named(layer, ".ff.w2"),
            VaeLayer::Project => String::from_str("proj_out"),
        }
    }
}

/// The name of a tensor of a block.
pub open spec fn block_name(layer: usize, rest: Seq<char>) -> Seq<char> {
    "transformer_blocks."@ + text::decimal(layer as nat) + rest
}

fn named(layer: usize, rest: &str) -> (name: String)
    ensures
        name@ == block_name(layer, rest@),
{
    let mut name = String::from_str("transformer_blocks.");
    text::push_size(&mut name, layer);
    name.append(rest);
    name
}

/// Whether a layout is that of the attention within each tile: the q, k and v of a head next to each other in a row,
/// and the rows of a tile in a batch of their own.
pub open spec fn is_tile_layout(layout: AttentionLayout, dim: int, tile_tokens: int) -> bool {
    let (row, head) = (3 * dim, 3 * HEAD_DIM);
    let batch = tile_tokens * (3 * dim);
    &&& layout.token_stride@ == seq![row as i64, row as i64, row as i64, dim as i64]
    &&& layout.head_stride@ == seq![head as i64, head as i64, head as i64, HEAD_DIM as i64]
    &&& layout.batch_stride@ == seq![batch as i64, batch as i64, batch as i64, (tile_tokens * dim) as i64]
    &&& layout.heads_per_key_value == 0
    &&& layout.causal == 0
}

/// The layout of the attention within each tile.
pub fn tile_layout(dim: usize, tile_tokens: usize) -> (layout: AttentionLayout)
    requires
        3 * dim <= usize::MAX,
        tile_tokens * (3 * dim) <= usize::MAX,
        tile_tokens * (3 * dim) <= i64::MAX,
        3 * dim <= i64::MAX,
    ensures
        is_tile_layout(layout, dim as int, tile_tokens as int),
{
    proof {
        arithmetic::products_grow(tile_tokens as int, dim as int, tile_tokens as int, 3 * dim);
    }
    let (row, inner): (i64, i64) = ((3 * dim) as i64, dim as i64);
    let (head, output): (i64, i64) = (3 * HEAD_DIM as i64, HEAD_DIM as i64);
    let (batch, batch_output): (i64, i64) = ((tile_tokens * (3 * dim)) as i64, (tile_tokens * dim) as i64);
    let layout = AttentionLayout {
        token_stride: [row, row, row, inner],
        head_stride: [head, head, head, output],
        batch_stride: [batch, batch, batch, batch_output],
        heads_per_key_value: 0,
        causal: 0,
    };
    assert(layout.token_stride@ =~= seq![row, row, row, inner]);
    assert(layout.head_stride@ =~= seq![head, head, head, output]);
    assert(layout.batch_stride@ =~= seq![batch, batch, batch, batch_output]);
    layout
}

/// Where the q, k and v of the first head and the output start.
pub open spec fn tile_offsets() -> AttentionOffsets {
    AttentionOffsets { query: 0, key: HEAD_DIM, value: 128, output: 0 }
}

/// The attention within each tile stays inside the rows of all tiles, in the q, k and v it reads and in the output it
/// writes.
pub proof fn tiles_attend_inside(layout: AttentionLayout, heads: int, tile_tokens: int, tiles: int)
    requires
        heads > 0,
        tile_tokens > 0,
        tiles > 0,
        tile_tokens * (3 * (heads * HEAD_DIM)) <= i64::MAX,
        is_tile_layout(layout, heads * HEAD_DIM, tile_tokens),
    ensures
        attention::reaches(
            layout,
            tile_offsets(),
            tiles,
            tile_tokens,
            heads,
            HEAD_DIM as int,
            tiles * tile_tokens * (3 * (heads * HEAD_DIM)) * 2,
            tiles * tile_tokens * (heads * HEAD_DIM) * 2,
        ),
{
    let dim = heads * HEAD_DIM;
    let (batch, batch_output) = (tile_tokens * (3 * dim), tile_tokens * dim);
    assert(3 * dim <= batch && dim <= batch_output <= batch) by (nonlinear_arith)
        requires
            tile_tokens >= 1,
            dim >= 64,
            batch == tile_tokens * (3 * dim),
            batch_output == tile_tokens * dim,
    ;
    assert((tiles - 1) * batch + (tile_tokens - 1) * (3 * dim) + 3 * dim == tiles * tile_tokens * (3 * dim))
        by (nonlinear_arith)
        requires
            batch == tile_tokens * (3 * dim),
    ;
    assert((tiles - 1) * batch_output + (tile_tokens - 1) * dim + dim == tiles * tile_tokens * dim) by (nonlinear_arith)
        requires
            batch_output == tile_tokens * dim,
    ;
    assert((heads - 1) * 192 + 192 == 3 * dim);
    assert((heads - 1) * 64 + 64 == dim);
}

/// The normalizations of the decoder.
#[derive(Clone, Copy, Debug, PartialEq, Eq, Structural)]
pub enum VaeNorm {
    First(usize),
    Second(usize),
    Out,
}

/// One launch of the decoder.
#[allow(inconsistent_fields)]
#[derive(Clone, Copy, Debug, PartialEq, Eq, Structural)]
pub enum VaeStep {
    /// The latent rows through the embedder, with the convolution before it folded in.
    Embed { tokens: usize, dim: usize, channels: usize },
    /// The embedded patches and the register tokens behind them into the residual.
    EmbedSuffix { tiles: usize, tile_tokens: usize, patches: usize, registers: usize, dim: usize },
    Normalize { norm: VaeNorm, tokens: usize, dim: usize },
    /// An FP16 layer through cuBLASLt.
    Half { layer: VaeLayer, rows: usize, outputs: usize, features: usize },
    /// Rotates and quantizes the input of an INT8 layer.
    RotateQuantize { layer: VaeLayer, rows: usize, features: usize },
    /// An INT8 layer, with SwiGLU or without.
    Int8 { layer: VaeLayer, config: usize, rows: usize, outputs: usize, features: usize, swiglu: bool },
    QkNormRope { pairs: usize, tile_tokens: usize, tokens: usize, heads: usize },
    /// Attention within each tile.
    Attend { tile_tokens: usize, heads: usize, tiles: usize },
    /// Adds the delta, scaled by a vector of the block, the first one or the second.
    AddScaled { layer: usize, second: bool, tokens: usize, dim: usize },
    SwiGlu { tokens: usize, ffn: usize },
}

/// The launches of a decoder, or why there are none.
pub type VaePlan = plan::Plan<VaeStep>;

/// Whether a layer of the decoder is INT8.
pub open spec fn is_int8(tensors: DeviceTensors, layer: VaeLayer) -> bool {
    tensors.layer_of(layer.letters()) matches Some(layer) && layer.dtype == DType::I8
}

/// The launches of a layer on FP16 rows. `swiglu` writes `silu(gate) · up` of an INT8 layer whose rows are
/// interleaved.
#[verifier::opaque]
pub open spec fn linear_plan(tensors: DeviceTensors, which: VaeLayer, rows: usize, swiglu: bool) -> VaePlan {
    let name = which.letters();
    match tensors.layer_of(name) {
        None => Err(model::missing_tensor(name + ".weight"@)),
        Some(layer) => if !layer.bias {
            Err(model::missing_tensor(name + ".bias"@))
        } else if layer.dtype != DType::I8 {
            Ok(seq![VaeStep::Half { layer: which, rows, outputs: layer.outputs, features: layer.features }])
        } else if layer.features % CONVROT_GROUP != 0 {
            Err(name + ": unsupported INT8 layer"@)
        } else if !layer.scaled {
            Err(model::missing_tensor(name + ".weight_scale"@))
        } else {
            Ok(
                seq![
                    VaeStep::RotateQuantize { layer: which, rows, features: layer.features },
                    VaeStep::Int8 {
                        layer: which,
                        config: gemm::tile_config(rows as int, layer.outputs as int, layer.features as int) as usize,
                        rows,
                        outputs: layer.outputs,
                        features: layer.features,
                        swiglu,
                    },
                ],
            )
        },
    }
}

fn missing(name: String, rest: &str) -> (error: Error)
    ensures
        error.says(model::missing_tensor(name@ + rest@)),
{
    let mut message = String::from_str("missing tensor ");
    message.append(name.as_str());
    message.append(rest);
    assert(message@ =~= model::missing_tensor(name@ + rest@));
    Error::Model(message)
}

/// Whether the weight of a layer has its outputs and inputs, where there is one.
pub open spec fn is_matrix(tensors: DeviceTensors, layer: VaeLayer) -> bool {
    tensors.find(layer.letters() + ".weight"@) matches Some(weight) ==> weight.shape@.len() >= 2
}

fn linear(tensors: &DeviceTensors, which: VaeLayer, rows: usize, swiglu: bool, steps: &mut Vec<VaeStep>) -> (result:
    Result<(), Error>)
    requires
        tensors.valid(),
        is_matrix(*tensors, which),
    ensures
        plan::added(old(steps)@, final(steps)@, result, linear_plan(*tensors, which, rows, swiglu)),
{
    proof {
        reveal(linear_plan);
    }
    let name = which.name();
    let layer = match tensors.layer(name.as_str()) {
        Some(layer) => layer,
        None => {
            return Err(missing(name, ".weight"));
        },
    };
    if !layer.bias {
        return Err(missing(name, ".bias"));
    }
    if layer.dtype != DType::I8 {
        steps.push(VaeStep::Half { layer: which, rows, outputs: layer.outputs, features: layer.features });
        return Ok(());
    }
    if layer.features % CONVROT_GROUP != 0 {
        let mut message = name;
        message.append(": unsupported INT8 layer");
        return Err(Error::Model(message));
    }
    if !layer.scaled {
        return Err(missing(name, ".weight_scale"));
    }
    steps.push(VaeStep::RotateQuantize { layer: which, rows, features: layer.features });
    steps.push(
        VaeStep::Int8 {
            layer: which,
            config: gemm::int8_config(rows, layer.outputs, layer.features),
            rows,
            outputs: layer.outputs,
            features: layer.features,
            swiglu,
        },
    );
    Ok(())
}

/// A launch that reads a tensor, where the tensor is there.
pub open spec fn reading(tensors: DeviceTensors, name: Seq<char>, step: VaeStep) -> VaePlan {
    if tensors.find(name) is Some {
        Ok(seq![step])
    } else {
        Err(model::missing_tensor(name))
    }
}

fn read(tensors: &DeviceTensors, name: String, step: VaeStep, steps: &mut Vec<VaeStep>) -> (result: Result<(), Error>)
    requires
        tensors.valid(),
    ensures
        plan::added(old(steps)@, final(steps)@, result, reading(*tensors, name@, step)),
{
    match tensors.get(name.as_str()) {
        Ok(_) => {
            steps.push(step);
            Ok(())
        },
        Err(error) => Err(error),
    }
}

/// How a batch of tiles is decoded.
#[derive(Clone, Copy, Debug, PartialEq, Eq, Structural)]
pub struct TileBatch {
    pub tiles: usize,
    /// Rows of a tile: its patches, the register tokens and one more.
    pub tile_tokens: usize,
    pub patches: usize,
    /// Rows of every tile.
    pub tokens: usize,
}

/// The attention half of a block.
#[verifier::opaque]
pub open spec fn attention_plan(
    tensors: DeviceTensors,
    config: VideoDecoderConfig,
    batch: TileBatch,
    layer: usize,
) -> VaePlan {
    let tokens = batch.tokens;
    plan::both(
        reading(
            tensors,
            block_name(layer, ".norm1.weight"@),
            VaeStep::Normalize { norm: VaeNorm::First(layer), tokens, dim: config.dim },
        ),
        plan::both(
            linear_plan(tensors, VaeLayer::Qkv(layer), tokens, false),
            plan::both(
                Ok(
                    seq![
                        VaeStep::QkNormRope {
                            pairs: (3 * ROPE_FREQUENCIES) as usize,
                            tile_tokens: batch.tile_tokens,
                            tokens,
                            heads: config.heads,
                        },
                        VaeStep::Attend { tile_tokens: batch.tile_tokens, heads: config.heads, tiles: batch.tiles },
                    ],
                ),
                plan::both(
                    linear_plan(tensors, VaeLayer::Out(layer), tokens, false),
                    reading(
                        tensors,
                        block_name(layer, ".scale1"@),
                        VaeStep::AddScaled { layer, second: false, tokens, dim: config.dim },
                    ),
                ),
            ),
        ),
    )
}

/// The MLP half of a block.
#[verifier::opaque]
pub open spec fn mlp_plan(tensors: DeviceTensors, config: VideoDecoderConfig, tokens: usize, layer: usize) -> VaePlan {
    let up = VaeLayer::W1(layer);
    plan::both(
        reading(
            tensors,
            block_name(layer, ".norm2.weight"@),
            VaeStep::Normalize { norm: VaeNorm::Second(layer), tokens, dim: config.dim },
        ),
        plan::both(
            if is_int8(tensors, up) {
                linear_plan(tensors, up, tokens, true)
            } else {
                plan::both(
                    linear_plan(tensors, up, tokens, false),
                    Ok(seq![VaeStep::SwiGlu { tokens, ffn: config.ffn }]),
                )
            },
            plan::both(
                linear_plan(tensors, VaeLayer::W2(layer), tokens, false),
                reading(
                    tensors,
                    block_name(layer, ".scale2"@),
                    VaeStep::AddScaled { layer, second: true, tokens, dim: config.dim },
                ),
            ),
        ),
    )
}

/// The first `count` blocks.
pub open spec fn blocks_plan(
    tensors: DeviceTensors,
    config: VideoDecoderConfig,
    batch: TileBatch,
    count: int,
) -> VaePlan
    decreases count,
{
    if count <= 0 {
        plan::nothing()
    } else {
        let layer = (count - 1) as usize;
        plan::both(
            blocks_plan(tensors, config, batch, count - 1),
            plan::both(
                attention_plan(tensors, config, batch, layer),
                mlp_plan(tensors, config, batch.tokens, layer),
            ),
        )
    }
}

/// From the latent rows to the patch features.
pub open spec fn tiles_plan(tensors: DeviceTensors, config: VideoDecoderConfig, batch: TileBatch) -> VaePlan {
    plan::both(
        plan::both(
            Ok(seq![VaeStep::Embed { tokens: batch.tokens, dim: config.dim, channels: config.latent_channels }]),
            reading(
                tensors,
                "register_tokens"@,
                VaeStep::EmbedSuffix {
                    tiles: batch.tiles,
                    tile_tokens: batch.tile_tokens,
                    patches: batch.patches,
                    registers: config.registers,
                    dim: config.dim,
                },
            ),
        ),
        plan::both(
            blocks_plan(tensors, config, batch, config.layers as int),
            plan::both(
                if tensors.find("norm_out.bias"@) is None {
                    Err(model::missing_tensor("norm_out.bias"@))
                } else {
                    reading(
                        tensors,
                        "norm_out.weight"@,
                        VaeStep::Normalize { norm: VaeNorm::Out, tokens: batch.tokens, dim: config.dim },
                    )
                },
                linear_plan(tensors, VaeLayer::Project, batch.tokens, false),
            ),
        ),
    )
}

fn attend(
    tensors: &DeviceTensors,
    config: &VideoDecoderConfig,
    batch: &TileBatch,
    layer: usize,
    steps: &mut Vec<VaeStep>,
) -> (result: Result<(), Error>)
    requires
        tensors.valid(),
        forall|which: VaeLayer| #[trigger] is_matrix(*tensors, which),
    ensures
        plan::added(old(steps)@, final(steps)@, result, attention_plan(*tensors, *config, *batch, layer)),
{
    proof {
        reveal(attention_plan);
    }
    let ghost before = steps@;
    let tokens: usize = batch.tokens;
    read(
        tensors,
        named(layer, ".norm1.weight"),
        VaeStep::Normalize { norm: VaeNorm::First(layer), tokens, dim: config.dim },
        steps,
    )?;
    linear(tensors, VaeLayer::Qkv(layer), tokens, false, steps)?;
    steps.push(
        VaeStep::QkNormRope {
            pairs: 3 * ROPE_FREQUENCIES,
            tile_tokens: batch.tile_tokens,
            tokens,
            heads: config.heads,
        },
    );
    steps.push(VaeStep::Attend { tile_tokens: batch.tile_tokens, heads: config.heads, tiles: batch.tiles });
    linear(tensors, VaeLayer::Out(layer), tokens, false, steps)?;
    read(
        tensors,
        named(layer, ".scale1"),
        VaeStep::AddScaled { layer, second: false, tokens, dim: config.dim },
        steps,
    )?;
    proof {
        let list = attention_plan(*tensors, *config, *batch, layer)->Ok_0;
        assert(steps@ =~= before + list);
    }
    Ok(())
}

fn mlp(tensors: &DeviceTensors, config: &VideoDecoderConfig, tokens: usize, layer: usize, steps: &mut Vec<VaeStep>) -> (result:
    Result<(), Error>)
    requires
        tensors.valid(),
        forall|which: VaeLayer| #[trigger] is_matrix(*tensors, which),
    ensures
        plan::added(old(steps)@, final(steps)@, result, mlp_plan(*tensors, *config, tokens, layer)),
{
    proof {
        reveal(mlp_plan);
    }
    let ghost before = steps@;
    read(
        tensors,
        named(layer, ".norm2.weight"),
        VaeStep::Normalize { norm: VaeNorm::Second(layer), tokens, dim: config.dim },
        steps,
    )?;
    let up = VaeLayer::W1(layer);
    let name = up.name();
    assert(is_matrix(*tensors, up));
    if tensors.is_int8(name.as_str()) {
        linear(tensors, up, tokens, true, steps)?;
    } else {
        linear(tensors, up, tokens, false, steps)?;
        steps.push(VaeStep::SwiGlu { tokens, ffn: config.ffn });
    }
    linear(tensors, VaeLayer::W2(layer), tokens, false, steps)?;
    read(
        tensors,
        named(layer, ".scale2"),
        VaeStep::AddScaled { layer, second: true, tokens, dim: config.dim },
        steps,
    )?;
    proof {
        let list = mlp_plan(*tensors, *config, tokens, layer)->Ok_0;
        assert(steps@ =~= before + list);
    }
    Ok(())
}

proof fn a_refused_block_stays(
    tensors: DeviceTensors,
    config: VideoDecoderConfig,
    batch: TileBatch,
    count: int,
    all: int,
)
    requires
        0 <= count <= all,
        blocks_plan(tensors, config, batch, count) is Err,
    ensures
        blocks_plan(tensors, config, batch, all) == blocks_plan(tensors, config, batch, count),
    decreases all,
{
    if count < all {
        a_refused_block_stays(tensors, config, batch, count, all - 1);
    }
}

fn run_blocks(tensors: &DeviceTensors, config: &VideoDecoderConfig, batch: &TileBatch, steps: &mut Vec<VaeStep>) -> (result:
    Result<(), Error>)
    requires
        tensors.valid(),
        forall|which: VaeLayer| #[trigger] is_matrix(*tensors, which),
    ensures
        plan::added(
            old(steps)@,
            final(steps)@,
            result,
            blocks_plan(*tensors, *config, *batch, config.layers as int),
        ),
{
    let ghost before = steps@;
    for layer in 0..config.layers
        invariant
            tensors.valid(),
            forall|which: VaeLayer| #[trigger] is_matrix(*tensors, which),
            plan::added(before, steps@, Ok(()), blocks_plan(*tensors, *config, *batch, layer as int)),
    {
        let result = attend(tensors, config, batch, layer, steps);
        if result.is_err() {
            proof {
                a_refused_block_stays(*tensors, *config, *batch, layer + 1, config.layers as int);
            }
            return result;
        }
        let result = mlp(tensors, config, batch.tokens, layer, steps);
        if result.is_err() {
            proof {
                a_refused_block_stays(*tensors, *config, *batch, layer + 1, config.layers as int);
            }
            return result;
        }
    }
    Ok(())
}

/// The launches that take the latent rows of a batch of tiles to their patch features, or why there are none.
fn decode_tiles(tensors: &DeviceTensors, config: &VideoDecoderConfig, batch: &TileBatch) -> (steps: Result<
    Vec<VaeStep>,
    Error,
>)
    requires
        tensors.valid(),
        forall|which: VaeLayer| #[trigger] is_matrix(*tensors, which),
    ensures
        plan::agrees(steps, tiles_plan(*tensors, *config, *batch)),
{
    let mut steps: Vec<VaeStep> = Vec::new();
    steps.push(VaeStep::Embed { tokens: batch.tokens, dim: config.dim, channels: config.latent_channels });
    read(
        tensors,
        String::from_str("register_tokens"),
        VaeStep::EmbedSuffix {
            tiles: batch.tiles,
            tile_tokens: batch.tile_tokens,
            patches: batch.patches,
            registers: config.registers,
            dim: config.dim,
        },
        &mut steps,
    )?;
    run_blocks(tensors, config, batch, &mut steps)?;
    tensors.get("norm_out.bias")?;
    read(
        tensors,
        String::from_str("norm_out.weight"),
        VaeStep::Normalize { norm: VaeNorm::Out, tokens: batch.tokens, dim: config.dim },
        &mut steps,
    )?;
    linear(tensors, VaeLayer::Project, batch.tokens, false, &mut steps)?;
    proof {
        let list = tiles_plan(*tensors, *config, *batch)->Ok_0;
        assert(steps@ =~= list);
    }
    Ok(steps)
}

/// The outputs and inputs of a layer.
pub open spec fn layer_shape(config: VideoDecoderConfig, which: VaeLayer) -> (int, int) {
    match which {
        VaeLayer::Qkv(_) => (3 * config.dim, config.dim as int),
        VaeLayer::Out(_) => (config.dim as int, config.dim as int),
        VaeLayer::W1(_) => (2 * config.ffn, config.dim as int),
        VaeLayer::W2(_) => (config.dim as int, config.ffn as int),
        VaeLayer::Project => (PATCH_FEATURES as int, config.dim as int),
    }
}

impl VaeWorkspace {
    /// The bytes of a layer's input.
    pub open spec fn input_of(self, which: VaeLayer) -> usize {
        match which {
            VaeLayer::Out(_) => self.attention,
            VaeLayer::W2(_) => self.activated,
            _ => self.normalized,
        }
    }

    /// The bytes of a layer's output.
    pub open spec fn output_of(self, which: VaeLayer, swiglu: bool) -> usize {
        match which {
            VaeLayer::Qkv(_) => self.qkv,
            VaeLayer::Out(_) | VaeLayer::W2(_) => self.delta,
            VaeLayer::W1(_) => if swiglu {
                self.activated
            } else {
                self.expanded
            },
            VaeLayer::Project => self.projected,
        }
    }

    /// Whether a launch stays inside the buffers it reads and writes.
    pub open spec fn holds(self, step: VaeStep) -> bool {
        match step {
            VaeStep::Embed { tokens, dim, channels } => {
                &&& tokens * channels * 2 <= self.latent_rows
                &&& tokens * dim * 2 <= self.normalized
            },
            VaeStep::EmbedSuffix { tiles, tile_tokens, patches, registers, dim } => {
                &&& tiles * tile_tokens * dim * 2 <= self.normalized
                &&& tiles * tile_tokens * dim * 4 <= self.residual
            },
            VaeStep::Normalize { norm, tokens, dim } => {
                &&& tokens * dim * 4 <= self.residual
                &&& tokens * dim * 2 <= self.normalized
            },
            VaeStep::QkNormRope { pairs, tile_tokens, tokens, heads } => tokens * (3 * (heads * HEAD_DIM)) * 2 <= self.qkv,
            VaeStep::Attend { tile_tokens, heads, tiles } => {
                &&& tiles * tile_tokens * (3 * (heads * HEAD_DIM)) * 2 <= self.qkv
                &&& tiles * tile_tokens * (heads * HEAD_DIM) * 2 <= self.attention
            },
            VaeStep::AddScaled { layer, second, tokens, dim } => {
                &&& tokens * dim * 4 <= self.residual
                &&& tokens * dim * 2 <= self.delta
            },
            VaeStep::SwiGlu { tokens, ffn } => {
                &&& tokens * (2 * ffn) * 2 <= self.expanded
                &&& tokens * ffn * 2 <= self.activated
            },
            VaeStep::Half { layer, rows, outputs, features } => {
                &&& rows * features * 2 <= self.input_of(layer)
                &&& rows * outputs * 2 <= self.output_of(layer, false)
            },
            VaeStep::RotateQuantize { layer, rows, features } => {
                &&& rows * features * 2 <= self.input_of(layer)
                &&& rows * features <= self.quantized
                &&& rows * 4 <= self.scales
            },
            VaeStep::Int8 { layer, config, rows, outputs, features, swiglu } => {
                &&& rows * features <= self.quantized
                &&& rows * 4 <= self.scales
                &&& rows * (if swiglu {
                    outputs / 2
                } else {
                    outputs
                }) * 2 <= self.output_of(layer, swiglu)
            },
        }
    }
}

/// Every launch of a linear layer stays inside the buffers of a chunk. The buffers of an INT8 decoder have no room
/// for gate and up projections, which its own write no more.
pub proof fn a_layer_stays_in_its_workspace(
    tensors: DeviceTensors,
    config: VideoDecoderConfig,
    workspace: VaeWorkspace,
    which: VaeLayer,
    rows: usize,
    quantized: bool,
    step: int,
)
    requires
        workspace.sized(config, rows as int, quantized),
        tensors.layer_of(which.letters()) matches Some(layer) ==> layer.outputs == layer_shape(config, which).0
            && layer.features == layer_shape(config, which).1,
        is_int8(tensors, which) ==> quantized,
        which matches VaeLayer::W1(_) ==> (quantized ==> is_int8(tensors, which)),
        ({
            let swiglu = which is W1 && is_int8(tensors, which);
            &&& linear_plan(tensors, which, rows, swiglu) is Ok
            &&& 0 <= step < linear_plan(tensors, which, rows, swiglu)->Ok_0.len()
        }),
    ensures
        workspace.holds(
            linear_plan(tensors, which, rows, which is W1 && is_int8(tensors, which))->Ok_0[step],
        ),
{
    reveal(linear_plan);
    let (outputs, features) = layer_shape(config, which);
    let widest = arithmetic::max(config.dim as int, config.ffn as int);
    arithmetic::products_grow(rows as int, features, rows as int, widest);
}

/// Whether the layers of a decoder have the shapes of its configuration, and an INT8 decoder has INT8 gate and up
/// projections.
pub open spec fn is_matched(tensors: DeviceTensors, config: VideoDecoderConfig, quantized: bool) -> bool {
    &&& config.dim == config.heads * HEAD_DIM
    &&& forall|which: VaeLayer|
        (#[trigger] tensors.layer_of(which.letters())) matches Some(layer) ==> {
            &&& layer.outputs == layer_shape(config, which).0
            &&& layer.features == layer_shape(config, which).1
            &&& layer.dtype == DType::I8 ==> quantized
            &&& which is W1 && quantized ==> layer.dtype == DType::I8
        }
}

spec fn plan_holds(workspace: VaeWorkspace, plan: VaePlan) -> bool {
    plan matches Ok(steps) ==> forall|i: int| 0 <= i < steps.len() ==> workspace.holds(#[trigger] steps[i])
}

proof fn both_hold(workspace: VaeWorkspace, one: VaePlan, other: VaePlan)
    requires
        plan_holds(workspace, one),
        plan_holds(workspace, other),
    ensures
        plan_holds(workspace, plan::both(one, other)),
{
    if let (Ok(first), Ok(second)) = (one, other) {
        let all = first + second;
        assert forall|i: int| 0 <= i < all.len() implies workspace.holds(#[trigger] all[i]) by {
            if i < first.len() {
                assert(all[i] == first[i]);
            } else {
                assert(all[i] == second[i - first.len()]);
            }
        }
    }
}

proof fn a_layer_holds(
    tensors: DeviceTensors,
    config: VideoDecoderConfig,
    workspace: VaeWorkspace,
    which: VaeLayer,
    rows: usize,
    quantized: bool,
)
    requires
        workspace.sized(config, rows as int, quantized),
        is_matched(tensors, config, quantized),
    ensures
        plan_holds(workspace, linear_plan(tensors, which, rows, which is W1 && is_int8(tensors, which))),
{
    let swiglu = which is W1 && is_int8(tensors, which);
    if let Ok(steps) = linear_plan(tensors, which, rows, swiglu) {
        assert(tensors.layer_of(which.letters()) is Some) by {
            reveal(linear_plan);
        }
        assert forall|i: int| 0 <= i < steps.len() implies workspace.holds(#[trigger] steps[i]) by {
            a_layer_stays_in_its_workspace(tensors, config, workspace, which, rows, quantized, i);
        }
    }
}

proof fn a_block_holds(
    tensors: DeviceTensors,
    config: VideoDecoderConfig,
    workspace: VaeWorkspace,
    batch: TileBatch,
    quantized: bool,
    layer: usize,
)
    requires
        workspace.sized(config, batch.tokens as int, quantized),
        is_matched(tensors, config, quantized),
        batch.tokens == batch.tiles * batch.tile_tokens,
    ensures
        plan_holds(workspace, attention_plan(tensors, config, batch, layer)),
        plan_holds(workspace, mlp_plan(tensors, config, batch.tokens, layer)),
{
    reveal(attention_plan);
    reveal(mlp_plan);
    let tokens = batch.tokens;
    let (qkv, out) = (VaeLayer::Qkv(layer), VaeLayer::Out(layer));
    let (up, down) = (VaeLayer::W1(layer), VaeLayer::W2(layer));
    a_layer_holds(tensors, config, workspace, qkv, tokens, quantized);
    a_layer_holds(tensors, config, workspace, out, tokens, quantized);
    a_layer_holds(tensors, config, workspace, up, tokens, quantized);
    a_layer_holds(tensors, config, workspace, down, tokens, quantized);
    let first = reading(
        tensors,
        block_name(layer, ".norm1.weight"@),
        VaeStep::Normalize { norm: VaeNorm::First(layer), tokens, dim: config.dim },
    );
    let attend: VaePlan = Ok(
        seq![
            VaeStep::QkNormRope {
                pairs: (3 * ROPE_FREQUENCIES) as usize,
                tile_tokens: batch.tile_tokens,
                tokens,
                heads: config.heads,
            },
            VaeStep::Attend { tile_tokens: batch.tile_tokens, heads: config.heads, tiles: batch.tiles },
        ],
    );
    let add = reading(
        tensors,
        block_name(layer, ".scale1"@),
        VaeStep::AddScaled { layer, second: false, tokens, dim: config.dim },
    );
    assert(plan_holds(workspace, first));
    assert(plan_holds(workspace, attend));
    assert(plan_holds(workspace, add));
    let (one, two) = (linear_plan(tensors, qkv, tokens, false), linear_plan(tensors, out, tokens, false));
    both_hold(workspace, two, add);
    both_hold(workspace, attend, plan::both(two, add));
    both_hold(workspace, one, plan::both(attend, plan::both(two, add)));
    both_hold(workspace, first, plan::both(one, plan::both(attend, plan::both(two, add))));
    let second = reading(
        tensors,
        block_name(layer, ".norm2.weight"@),
        VaeStep::Normalize { norm: VaeNorm::Second(layer), tokens, dim: config.dim },
    );
    let end = reading(
        tensors,
        block_name(layer, ".scale2"@),
        VaeStep::AddScaled { layer, second: true, tokens, dim: config.dim },
    );
    let three = linear_plan(tensors, down, tokens, false);
    both_hold(workspace, three, end);
    let swiglu: VaePlan = Ok(seq![VaeStep::SwiGlu { tokens, ffn: config.ffn }]);
    let plain = linear_plan(tensors, up, tokens, false);
    let middle = if is_int8(tensors, up) {
        linear_plan(tensors, up, tokens, true)
    } else {
        plan::both(plain, swiglu)
    };
    if !is_int8(tensors, up) {
        if plain is Ok {
            assert(tensors.layer_of(up.letters()) is Some) by {
                reveal(linear_plan);
            }
            assert(!quantized);
            assert(plan_holds(workspace, swiglu));
            both_hold(workspace, plain, swiglu);
        }
    }
    both_hold(workspace, middle, plan::both(three, end));
    both_hold(workspace, second, plan::both(middle, plan::both(three, end)));
}

proof fn blocks_hold(
    tensors: DeviceTensors,
    config: VideoDecoderConfig,
    workspace: VaeWorkspace,
    batch: TileBatch,
    quantized: bool,
    count: int,
)
    requires
        workspace.sized(config, batch.tokens as int, quantized),
        is_matched(tensors, config, quantized),
        batch.tokens == batch.tiles * batch.tile_tokens,
    ensures
        plan_holds(workspace, blocks_plan(tensors, config, batch, count)),
    decreases count,
{
    if count > 0 {
        let layer = (count - 1) as usize;
        blocks_hold(tensors, config, workspace, batch, quantized, count - 1);
        a_block_holds(tensors, config, workspace, batch, quantized, layer);
        let attention = attention_plan(tensors, config, batch, layer);
        let mlp = mlp_plan(tensors, config, batch.tokens, layer);
        both_hold(workspace, attention, mlp);
        both_hold(workspace, blocks_plan(tensors, config, batch, count - 1), plan::both(attention, mlp));
    }
}

/// Every launch on a batch of tiles stays inside the buffers of its chunk.
pub proof fn a_batch_stays_in_its_workspace(
    tensors: DeviceTensors,
    config: VideoDecoderConfig,
    workspace: VaeWorkspace,
    batch: TileBatch,
    quantized: bool,
    step: int,
)
    requires
        workspace.sized(config, batch.tokens as int, quantized),
        is_matched(tensors, config, quantized),
        batch.tokens == batch.tiles * batch.tile_tokens,
        tiles_plan(tensors, config, batch) is Ok,
        0 <= step < tiles_plan(tensors, config, batch)->Ok_0.len(),
    ensures
        workspace.holds(tiles_plan(tensors, config, batch)->Ok_0[step]),
{
    let tokens = batch.tokens;
    blocks_hold(tensors, config, workspace, batch, quantized, config.layers as int);
    a_layer_holds(tensors, config, workspace, VaeLayer::Project, tokens, quantized);
    let embed: VaePlan = Ok(seq![VaeStep::Embed { tokens, dim: config.dim, channels: config.latent_channels }]);
    let suffix = reading(
        tensors,
        "register_tokens"@,
        VaeStep::EmbedSuffix {
            tiles: batch.tiles,
            tile_tokens: batch.tile_tokens,
            patches: batch.patches,
            registers: config.registers,
            dim: config.dim,
        },
    );
    let norm = if tensors.find("norm_out.bias"@) is None {
        Err(model::missing_tensor("norm_out.bias"@))
    } else {
        reading(
            tensors,
            "norm_out.weight"@,
            VaeStep::Normalize { norm: VaeNorm::Out, tokens, dim: config.dim },
        )
    };
    assert(plan_holds(workspace, embed));
    assert(plan_holds(workspace, suffix));
    assert(plan_holds(workspace, norm));
    let blocks = blocks_plan(tensors, config, batch, config.layers as int);
    let project = linear_plan(tensors, VaeLayer::Project, tokens, false);
    both_hold(workspace, embed, suffix);
    both_hold(workspace, norm, project);
    both_hold(workspace, blocks, plan::both(norm, project));
    both_hold(workspace, plan::both(embed, suffix), plan::both(blocks, plan::both(norm, project)));
}

/// A latent or a picture: `[channels, frames, height, width]`.
#[derive(Clone, Copy, Debug, PartialEq, Eq, Structural)]
pub struct Extents {
    pub channels: usize,
    pub frames: usize,
    pub height: usize,
    pub width: usize,
}

impl Extents {
    pub open spec fn values(self) -> int {
        self.channels * self.frames * self.height * self.width
    }

    /// The place of a value.
    pub open spec fn place(self, channel: int, frame: int, y: int, x: int) -> int {
        ((channel * self.frames + frame) * self.height + y) * self.width + x
    }

    /// The place of a value lies among the values.
    pub proof fn place_is_inside(self, channel: int, frame: int, y: int, x: int)
        requires
            0 <= channel < self.channels,
            0 <= frame < self.frames,
            0 <= y < self.height,
            0 <= x < self.width,
        ensures
            0 <= channel * self.frames + frame < self.channels * self.frames,
            0 <= (channel * self.frames + frame) * self.height + y < self.channels * self.frames * self.height,
            0 <= self.place(channel, frame, y, x) < self.values(),
            0 <= channel * self.frames,
            0 <= (channel * self.frames + frame) * self.height,
            0 <= ((channel * self.frames + frame) * self.height + y) * self.width,
    {
        let frames = self.channels * self.frames;
        let lines = frames * self.height;
        arithmetic::nested_is_inside(channel, self.channels as int, frame, self.frames as int);
        arithmetic::nested_is_inside(channel * self.frames + frame, frames, y, self.height as int);
        arithmetic::nested_is_inside(
            (channel * self.frames + frame) * self.height + y,
            lines,
            x,
            self.width as int,
        );
        assert(0 <= channel * self.frames) by (nonlinear_arith)
            requires
                channel >= 0,
        ;
        assert(0 <= (channel * self.frames + frame) * self.height) by (nonlinear_arith)
            requires
                channel * self.frames + frame >= 0,
        ;
        assert(0 <= ((channel * self.frames + frame) * self.height + y) * self.width) by (nonlinear_arith)
            requires
                (channel * self.frames + frame) * self.height + y >= 0,
        ;
    }
}

/// Where a value of the rows of a chunk comes from in the latent, or nothing for the rows behind a tile's patches.
/// Frames past the end repeat the last latent frame.
pub open spec fn row_source(
    latent: Extents,
    grid: TileGrid,
    first_frame: int,
    frames: int,
    tile_tokens: int,
    place: int,
) -> Option<int> {
    let (height, width) = (grid.rows.length as int / 16, grid.columns.length as int / 16);
    let channel = place % latent.channels as int;
    let row = place / latent.channels as int;
    let (tile, token) = (row / tile_tokens, row % tile_tokens);
    let columns = grid.columns.starts@.len() as int;
    if token < frames * height * width {
        let frame = arithmetic::min(first_frame + token / (height * width), latent.frames - 1);
        let y = grid.rows.starts@[tile / columns] as int / 16 + token / width % height;
        let x = grid.columns.starts@[tile % columns] as int / 16 + token % width;
        Some(latent.place(channel, frame, y, x))
    } else {
        None
    }
}

/// The latent rows of every tile of one chunk, `[tiles, tile tokens, channels]`, from a latent of FP16 values. The
/// rows behind a tile's patches stay zero.
pub fn tile_rows(
    values: &Vec<u16>,
    latent: &Extents,
    first_frame: usize,
    frames: usize,
    grid: &TileGrid,
    tile_tokens: usize,
) -> (rows: Vec<u16>)
    requires
        values@.len() == latent.values(),
        latent.channels > 0,
        latent.frames > 0,
        tile_tokens > 0,
        first_frame + frames <= usize::MAX,
        grid.rows.lies_in(latent.height as int),
        grid.columns.lies_in(latent.width as int),
        frames * (grid.rows.length as int / 16) * (grid.columns.length as int / 16) <= usize::MAX,
        grid.tiles() * tile_tokens * latent.channels <= usize::MAX,
        grid.tiles() * tile_tokens <= usize::MAX,
    ensures
        rows@.len() == grid.tiles() * tile_tokens * latent.channels,
        forall|place: int|
            0 <= place < rows@.len() ==> (#[trigger] rows@[place]) == (match row_source(
                *latent,
                *grid,
                first_frame as int,
                frames as int,
                tile_tokens as int,
                place,
            ) {
                Some(source) => values@[source],
                None => 0u16,
            }),
{
    let size: usize = values.len();
    let height: usize = grid.latent_height();
    let width: usize = grid.latent_width();
    let channels: usize = latent.channels;
    let columns: usize = grid.columns.starts.len();
    let lines: usize = grid.rows.starts.len();
    proof {
        assert(height >= 1 && width >= 1);
        assert(0 <= frames * height) by (nonlinear_arith);
        assert(frames * height <= frames * height * width) by (nonlinear_arith)
            requires
                frames * height >= 0,
                width >= 1,
        ;
        assert(0 <= lines * columns * tile_tokens) by (nonlinear_arith);
        assert(lines * columns <= lines * columns * tile_tokens) by (nonlinear_arith)
            requires
                tile_tokens >= 1,
        ;
        assert(height * width <= latent.height * latent.width) by {
            assert(grid.rows.starts@[0] / 16 + grid.rows.length / 16 <= latent.height);
            assert(grid.columns.starts@[0] / 16 + grid.columns.length / 16 <= latent.width);
            arithmetic::products_grow(height as int, width as int, latent.height as int, latent.width as int);
        }
        a_plane_is_among_the_values(*latent);
        assert(height * width >= 1) by (nonlinear_arith)
            requires
                height >= 1,
                width >= 1,
        ;
    }
    let tiles: usize = grid.count();
    let patches: usize = frames * height * width;
    let plane: usize = height * width;
    let total: usize = tiles * tile_tokens * channels;
    let mut rows: Vec<u16> = Vec::new();
    for place in 0..total
        invariant
            size == values@.len(),
            values@.len() == latent.values(),
            channels == latent.channels,
            channels > 0,
            latent.frames > 0,
            tile_tokens > 0,
            first_frame + frames <= usize::MAX,
            grid.rows.lies_in(latent.height as int),
            grid.columns.lies_in(latent.width as int),
            height == grid.rows.length / SPATIAL_RATIO,
            width == grid.columns.length / SPATIAL_RATIO,
            height >= 1,
            width >= 1,
            plane == height * width,
            plane >= 1,
            patches == frames * height * width,
            columns == grid.columns.starts@.len(),
            lines == grid.rows.starts@.len(),
            tiles == lines * columns,
            total == tiles * tile_tokens * channels,
            rows@.len() == place,
            forall|i: int|
                0 <= i < place ==> (#[trigger] rows@[i]) == (match row_source(
                    *latent,
                    *grid,
                    first_frame as int,
                    frames as int,
                    tile_tokens as int,
                    i,
                ) {
                    Some(source) => values@[source],
                    None => 0u16,
                }),
    {
        let channel: usize = place % channels;
        let row: usize = place / channels;
        let tile: usize = row / tile_tokens;
        let token: usize = row % tile_tokens;
        if token < patches {
            proof {
                arithmetic::quotient_is_inside(place as int, tiles * tile_tokens, channels as int);
                arithmetic::quotient_is_inside(row as int, tiles as int, tile_tokens as int);
                arithmetic::quotient_is_inside(tile as int, lines as int, columns as int);
                assert(frames * height * width == frames * plane) by (nonlinear_arith)
                    requires
                        plane == height * width,
                ;
                arithmetic::quotient_is_inside(token as int, frames as int, plane as int);
            }
            let frame: usize = arithmetic::least(first_frame + token / plane, latent.frames - 1);
            let start_y: usize = grid.rows.starts[tile / columns];
            let start_x: usize = grid.columns.starts[tile % columns];
            let y: usize = start_y / SPATIAL_RATIO + token / width % height;
            let x: usize = start_x / SPATIAL_RATIO + token % width;
            proof {
                latent.place_is_inside(channel as int, frame as int, y as int, x as int);
                a_count_of_lines_is_among_the_values(*latent, channel as int, frame as int, y as int, x as int);
            }
            let source: usize = ((channel * latent.frames + frame) * latent.height + y) * latent.width + x;
            rows.push(values[source]);
        } else {
            rows.push(0);
        }
    }
    rows
}

/// A plane of a latent is no larger than all of it.
proof fn a_plane_is_among_the_values(latent: Extents)
    requires
        latent.channels > 0,
        latent.frames > 0,
    ensures
        0 <= latent.height * latent.width <= latent.values(),
{
    let (c, f, h, w) = (
        latent.channels as int,
        latent.frames as int,
        latent.height as int,
        latent.width as int,
    );
    assert(0 <= h * w <= c * f * h * w) by (nonlinear_arith)
        requires
            c >= 1,
            f >= 1,
            h >= 0,
            w >= 0,
    ;
}

/// What is counted on the way to a place is no more than the place.
proof fn a_count_of_lines_is_among_the_values(latent: Extents, channel: int, frame: int, y: int, x: int)
    requires
        0 <= channel < latent.channels,
        0 <= frame < latent.frames,
        0 <= y < latent.height,
        0 <= x < latent.width,
    ensures
        channel * latent.frames + frame <= latent.place(channel, frame, y, x),
        (channel * latent.frames + frame) * latent.height + y <= latent.place(channel, frame, y, x),
{
    latent.place_is_inside(channel, frame, y, x);
    let line = channel * latent.frames + frame;
    assert(line * latent.height >= line) by (nonlinear_arith)
        requires
            line >= 0,
            latent.height >= 1,
    ;
    let row = line * latent.height + y;
    assert(row * latent.width >= row) by (nonlinear_arith)
        requires
            row >= 0,
            latent.width >= 1,
    ;
}

/// Where a pixel of a tile is among the patch features: in the patch of its latent pixel, by channel, frame, line
/// and column.
pub open spec fn feature_of(height: int, width: int, channel: int, frame: int, y: int, x: int) -> int {
    let token = ((frame / 4) * height + y / 16) * width + x / 16;
    token * 3072 + (((channel * 4 + frame % 4) * 16 + y % 16) * 16 + x % 16)
}

/// The first tile's patch features as `[3, frames, height, width]`.
pub fn first_tile(features: &Vec<u16>, frames: usize, grid: &TileGrid) -> (pixels: Vec<u16>)
    requires
        grid.rows.length % SPATIAL_RATIO == 0,
        grid.columns.length % SPATIAL_RATIO == 0,
        features@.len() == frames * (grid.rows.length as int / 16) * (grid.columns.length as int / 16) * 3072,
        frames * 4 <= usize::MAX,
        frames * 4 * 3 <= usize::MAX,
        frames * 4 * 3 * grid.rows.length <= usize::MAX,
        frames * 4 * 3 * grid.rows.length * grid.columns.length <= usize::MAX,
    ensures
        pixels@.len() == 3 * (frames * 4) * grid.rows.length * grid.columns.length,
        forall|channel: int, frame: int, y: int, x: int|
            #![trigger feature_of(
                grid.rows.length as int / 16,
                grid.columns.length as int / 16,
                channel,
                frame,
                y,
                x,
            )]
            0 <= channel < 3 && 0 <= frame < frames * 4 && 0 <= y < grid.rows.length && 0 <= x < grid.columns.length
                ==> pixels@[((channel * (frames * 4) + frame) * grid.rows.length + y) * grid.columns.length + x]
                == features@[feature_of(
                grid.rows.length as int / 16,
                grid.columns.length as int / 16,
                channel,
                frame,
                y,
                x,
            )],
{
    let size: usize = features.len();
    let height: usize = grid.latent_height();
    let width: usize = grid.latent_width();
    let tall: usize = grid.rows.length;
    let wide: usize = grid.columns.length;
    let all_frames: usize = frames * 4;
    let lines: usize = all_frames * 3;
    proof {
        assert(all_frames * 3 * tall == lines * tall);
        assert(all_frames * 3 * tall * wide == lines * tall * wide);
    }
    let total: usize = lines * tall * wide;
    let ghost source = |place: int|
        {
            let (row, x) = (place / wide as int, place % wide as int);
            let (line, y) = (row / tall as int, row % tall as int);
            feature_of(height as int, width as int, line / all_frames as int, line % all_frames as int, y, x)
        };
    let mut pixels: Vec<u16> = Vec::new();
    for place in 0..total
        invariant
            size == features@.len(),
            size == frames * height * width * 3072,
            height * 16 == tall,
            width * 16 == wide,
            all_frames == frames * 4,
            lines == all_frames * 3,
            total == lines * tall * wide,
            pixels@.len() == place,
            source == (|place: int|
                {
                    let (row, x) = (place / wide as int, place % wide as int);
                    let (line, y) = (row / tall as int, row % tall as int);
                    feature_of(height as int, width as int, line / all_frames as int, line % all_frames as int, y, x)
                }),
            forall|i: int| 0 <= i < place ==> (#[trigger] pixels@[i]) == features@[source(i)],
    {
        proof {
            some_pixels_have_sides(place as int, lines as int, tall as int, wide as int);
            arithmetic::quotient_is_inside(place as int, lines * tall, wide as int);
        }
        let row: usize = place / wide;
        let x: usize = place % wide;
        proof {
            arithmetic::quotient_is_inside(row as int, lines as int, tall as int);
        }
        let line: usize = row / tall;
        let y: usize = row % tall;
        proof {
            assert(all_frames > 0) by {
                if all_frames == 0 {
                    assert(lines == 0);
                }
            }
            assert(lines == 3 * all_frames);
            arithmetic::quotient_is_inside(line as int, 3, all_frames as int);
        }
        let channel: usize = line / all_frames;
        let frame: usize = line % all_frames;
        proof {
            a_feature_is_inside(
                frames as int,
                height as int,
                width as int,
                channel as int,
                frame as int,
                y as int,
                x as int,
            );
        }
        let token: usize = ((frame / 4) * height + y / 16) * width + x / 16;
        let feature: usize = ((channel * 4 + frame % 4) * 16 + y % 16) * 16 + x % 16;
        pixels.push(features[token * 3072 + feature]);
        assert(source(place as int) == token * 3072 + feature);
    }
    proof {
        assert(lines * tall * wide == 3 * all_frames * tall * wide);
        assert forall|channel: int, frame: int, y: int, x: int|
            #![trigger feature_of(height as int, width as int, channel, frame, y, x)]
            0 <= channel < 3 && 0 <= frame < all_frames && 0 <= y < tall && 0 <= x < wide implies pixels@[((channel
            * all_frames + frame) * tall + y) * wide + x] == features@[feature_of(
            height as int,
            width as int,
            channel,
            frame,
            y,
            x,
        )] by {
            let line = channel * all_frames + frame;
            let row = line * tall + y;
            let place = row * wide + x;
            arithmetic::nested_is_inside(channel, 3, frame, all_frames as int);
            arithmetic::nested_is_inside(line, lines as int, y, tall as int);
            arithmetic::nested_is_inside(row, lines * tall, x, wide as int);
            arithmetic::quotient_of_nested(row, x, wide as int);
            arithmetic::quotient_of_nested(line, y, tall as int);
            arithmetic::quotient_of_nested(channel, frame, all_frames as int);
            assert(pixels@[place] == features@[source(place)]);
        }
    }
    pixels
}

/// Where there is a pixel, its picture has sides.
proof fn some_pixels_have_sides(place: int, lines: int, tall: int, wide: int)
    requires
        0 <= place < lines * tall * wide,
        lines >= 0,
        tall >= 0,
        wide >= 0,
    ensures
        lines > 0,
        tall > 0,
        wide > 0,
{
    assert(lines > 0 && tall > 0 && wide > 0) by (nonlinear_arith)
        requires
            0 < lines * tall * wide,
            lines >= 0,
            tall >= 0,
            wide >= 0,
    ;
}

proof fn a_feature_is_inside(frames: int, height: int, width: int, channel: int, frame: int, y: int, x: int)
    requires
        0 <= channel < 3,
        0 <= frame < frames * 4,
        0 <= y < height * 16,
        0 <= x < width * 16,
    ensures
        ({
            let line = (frame / 4) * height + y / 16;
            let token = line * width + x / 16;
            let feature = ((channel * 4 + frame % 4) * 16 + y % 16) * 16 + x % 16;
            &&& 0 <= (frame / 4) * height
            &&& 0 <= line * width
            &&& 0 <= line <= token
            &&& 0 <= token
            &&& 0 <= feature < 3072
            &&& 0 <= token * 3072 + feature < frames * height * width * 3072
            &&& token * 3072 >= 0
        }),
{
    arithmetic::nested_is_inside(frame / 4, frames, y / 16, height);
    let line = (frame / 4) * height + y / 16;
    arithmetic::nested_is_inside(line, frames * height, x / 16, width);
    let token = line * width + x / 16;
    let feature = ((channel * 4 + frame % 4) * 16 + y % 16) * 16 + x % 16;
    arithmetic::nested_is_inside(token, frames * height * width, feature, 3072);
    assert(line * width >= line) by (nonlinear_arith)
        requires
            line >= 0,
            width >= 1,
    ;
    assert((frame / 4) * height >= 0) by (nonlinear_arith)
        requires
            frame >= 0,
            height >= 0,
    ;
}

/// How a latent is cut into chunks along its frames.
pub struct TemporalPlan {
    /// The latent frames of each chunk.
    pub chunks: Vec<Run>,
    /// The frames of the decoded video.
    pub frames: usize,
}

/// One action of a decode.
#[derive(Clone, Copy, Debug, PartialEq, Eq, Structural)]
pub enum DecodeStep {
    /// Uploads the latent rows of a chunk, from this latent frame on.
    Upload { first_frame: usize },
    /// Runs the decoder on the rows.
    Tiles,
    /// Takes the first tile.
    FirstTile,
    /// Blends the tiles into the canvas.
    Blend,
    /// Writes frames of the canvas to the output, blended with the frames kept of the chunk before or not.
    Write { first: usize, count: usize, blend: bool, position: usize },
    /// Keeps frames of the canvas for the next chunk.
    Keep { first: usize, count: usize },
}

/// What a decode does.
pub struct Decoding {
    pub output_frames: usize,
    pub height: usize,
    pub width: usize,
    pub chunk_frames: usize,
    pub canvas_frames: usize,
    pub batch: TileBatch,
    pub steps: Vec<DecodeStep>,
}

/// The first frame of a chunk's tail.
pub const TAIL_FIRST: usize = 23;

/// Where writing is after this many frames, of an output of `output_frames`.
pub open spec fn position_after(frames: int, output_frames: usize) -> usize {
    arithmetic::min(frames, output_frames as int) as usize
}

/// What the chunk does that starts at a latent frame. Each chunk splits into frames [3, 20), written after blending
/// its start with the previous chunk's tail, and the tail [23, 28), kept for the next chunk or written after the
/// last one.
pub open spec fn chunk_steps(
    first_frame: usize,
    chunk: int,
    chunks: int,
    output_frames: usize,
    capture: bool,
) -> Seq<DecodeStep> {
    let written = position_after(chunk * 17, output_frames);
    let tail = position_after((chunk + 1) * 17, output_frames);
    seq![DecodeStep::Upload { first_frame }, DecodeStep::Tiles] + (if capture && chunk == 0 {
        seq![DecodeStep::FirstTile]
    } else {
        Seq::empty()
    }) + seq![
        DecodeStep::Blend,
        DecodeStep::Write { first: 3, count: 17, blend: chunk > 0, position: written },
        if chunk + 1 < chunks {
            DecodeStep::Keep { first: 23, count: 5 }
        } else {
            DecodeStep::Write { first: 23, count: 5, blend: false, position: tail }
        },
    ]
}

/// What the first `count` chunks do.
pub open spec fn chunks_steps(runs: Seq<Run>, output_frames: usize, capture: bool, count: int) -> Seq<DecodeStep>
    decreases count,
{
    if count <= 0 {
        Seq::empty()
    } else {
        chunks_steps(runs, output_frames, capture, count - 1) + chunk_steps(
            runs[count - 1].start,
            count - 1,
            runs.len() as int,
            output_frames,
            capture,
        )
    }
}

/// A single latent frame decodes on its own and keeps only its last frame.
pub open spec fn single_steps(capture: bool) -> Seq<DecodeStep> {
    seq![DecodeStep::Upload { first_frame: 0 }, DecodeStep::Tiles] + (if capture {
        seq![DecodeStep::FirstTile]
    } else {
        Seq::empty()
    }) + seq![DecodeStep::Blend, DecodeStep::Write { first: 3, count: 1, blend: false, position: 0 }]
}

/// That a chunk does not have its latent frames.
pub open spec fn wrong_chunk(chunk: int, run: Run) -> Seq<char> {
    "chunk "@ + text::decimal(chunk as nat) + " covers latent frames "@ + text::decimal(run.start as nat) + ".."@
        + text::decimal(run.end as nat)
}

/// Whether a chunk is the first one that does not have its latent frames.
pub open spec fn first_wrong(runs: Seq<Run>, chunk: int) -> bool {
    &&& 0 <= chunk < runs.len()
    &&& runs[chunk].size() != 7
    &&& forall|k: int| 0 <= k < chunk ==> (#[trigger] runs[k]).size() == 7
}

/// What a latent is refused for, before it is decoded.
pub open spec fn latent_refusal(config: VideoDecoderConfig, shape: Seq<usize>) -> Option<Seq<char>> {
    if shape.len() != 4 {
        Some("latent shape "@ + text::listed(shape) + " is not [channels, frames, height, width]"@)
    } else if shape[0] != config.latent_channels || shape[1] == 0 {
        Some("latent shape "@ + text::listed(shape) + " does not match the decoder"@)
    } else {
        None
    }
}

/// Whether the sizes of a decode can be counted.
pub open spec fn decodable(config: VideoDecoderConfig, shape: Seq<usize>, grid: TileGrid) -> bool {
    &&& shape[2] * 16 <= usize::MAX
    &&& shape[3] * 16 <= usize::MAX
    &&& 7 * (grid.rows.length as int / 16) <= usize::MAX
    &&& 7 * (grid.rows.length as int / 16) * (grid.columns.length as int / 16) + config.registers + 1 <= usize::MAX
    &&& grid.tiles() <= usize::MAX
    &&& grid.tiles() * (7 * (grid.rows.length as int / 16) * (grid.columns.length as int / 16) + config.registers + 1)
        <= usize::MAX
}

/// Whether `decoding` is what a decode of a latent of this shape does.
pub open spec fn is_decoding(
    config: VideoDecoderConfig,
    shape: Seq<usize>,
    plan: TemporalPlan,
    grid: TileGrid,
    capture: bool,
    decoding: Decoding,
) -> bool {
    let single = shape[1] == 1;
    let chunk_frames: int = if single {
        1
    } else {
        7
    };
    &&& decoding.height == shape[2] * 16
    &&& decoding.width == shape[3] * 16
    &&& decoding.output_frames == (if single {
        1
    } else {
        plan.frames
    })
    &&& decoding.chunk_frames == chunk_frames
    &&& decoding.canvas_frames == chunk_frames * 4
    &&& decoding.batch.tiles == grid.tiles()
    &&& decoding.batch.patches == chunk_frames * (grid.rows.length as int / 16) * (grid.columns.length as int / 16)
    &&& decoding.batch.tile_tokens == decoding.batch.patches + config.registers + 1
    &&& decoding.batch.tokens == decoding.batch.tiles * decoding.batch.tile_tokens
    &&& decoding.steps@ == (if single {
        single_steps(capture)
    } else {
        chunks_steps(plan.chunks@, plan.frames, capture, plan.chunks@.len() as int)
    })
}

fn push_chunk(first_frame: usize, chunk: usize, chunks: usize, output_frames: usize, capture: bool, steps: &mut Vec<
    DecodeStep,
>)
    requires
        chunk < chunks,
        chunks * 17 <= usize::MAX,
    ensures
        final(steps)@ == old(steps)@ + chunk_steps(first_frame, chunk as int, chunks as int, output_frames, capture),
{
    let ghost before = steps@;
    steps.push(DecodeStep::Upload { first_frame });
    steps.push(DecodeStep::Tiles);
    if capture && chunk == 0 {
        steps.push(DecodeStep::FirstTile);
    }
    steps.push(DecodeStep::Blend);
    let written: usize = arithmetic::least(chunk * 17, output_frames);
    steps.push(
        DecodeStep::Write {
            first: FRAME_PRE_PADDING,
            count: CHUNK_FRAMES - FRAME_PRE_PADDING,
            blend: chunk > 0,
            position: written,
        },
    );
    if chunk + 1 < chunks {
        steps.push(DecodeStep::Keep { first: TAIL_FIRST, count: FRAME_OVERLAP });
    } else {
        let tail: usize = arithmetic::least((chunk + 1) * 17, output_frames);
        steps.push(DecodeStep::Write { first: TAIL_FIRST, count: FRAME_OVERLAP, blend: false, position: tail });
    }
    assert(steps@ =~= before + chunk_steps(first_frame, chunk as int, chunks as int, output_frames, capture));
}

fn push_chunks(runs: &Vec<Run>, output_frames: usize, capture: bool, steps: &mut Vec<DecodeStep>) -> (result: Result<
    (),
    Error,
>)
    requires
        runs@.len() * 17 <= usize::MAX,
        forall|k: int| 0 <= k < runs@.len() ==> (#[trigger] runs@[k]).start <= runs@[k].end,
    ensures
        match result {
            Ok(_) => {
                &&& forall|k: int| 0 <= k < runs@.len() ==> (#[trigger] runs@[k]).size() == 7
                &&& final(steps)@ == old(steps)@ + chunks_steps(runs@, output_frames, capture, runs@.len() as int)
            },
            Err(error) => exists|chunk: int|
                #[trigger] first_wrong(runs@, chunk) && error.says(wrong_chunk(chunk, runs@[chunk])),
        },
{
    let ghost before = steps@;
    let count: usize = runs.len();
    for chunk in 0..count
        invariant
            count == runs@.len(),
            count * 17 <= usize::MAX,
            forall|k: int| 0 <= k < chunk ==> (#[trigger] runs@[k]).size() == 7,
            steps@ =~= before + chunks_steps(runs@, output_frames, capture, chunk as int),
    {
        let run = runs[chunk];
        if run.len() != CHUNK_TOKENS + CHUNK_OVERLAP_TOKENS {
            let mut message = String::from_str("chunk ");
            text::push_size(&mut message, chunk);
            message.append(" covers latent frames ");
            text::push_size(&mut message, run.start);
            message.append("..");
            text::push_size(&mut message, run.end);
            proof {
                assert(message@ =~= wrong_chunk(chunk as int, run));
                assert(first_wrong(runs@, chunk as int));
            }
            return Err(Error::Model(message));
        }
        push_chunk(run.start, chunk, count, output_frames, capture, steps);
    }
    Ok(())
}

/// A decoder whose weights are on the device.
pub struct CudaVideoDecoder {
    pub config: VideoDecoderConfig,
    pub tensors: DeviceTensors,
    /// Whether any linear layer has INT8 ConvRot weights.
    pub quantized: bool,
    pub tile_size: usize,
    pub tile_overlap_min: usize,
}

impl CudaVideoDecoder {
    /// What is made of each tensor of a file, or why the decoder cannot be loaded. What a tensor says of a quantization
    /// is in `quantizations`, at the place of the tensor.
    pub fn load(
        file: &Vec<TensorInfo>,
        prefix: &str,
        tile_size: usize,
        tile_overlap_min: usize,
        quantizations: &Vec<Option<Quantization>>,
    ) -> (load: Result<DecoderLoad, Error>)
        requires
            has_shape(file@, prefix@ + "decoder.x_embedder.weight"@, 2),
            has_shape(file@, prefix@ + "decoder.transformer_blocks.0.ff.w2.weight"@, 2),
            has_shape(file@, prefix@ + "decoder.register_tokens"@, 2),
            has_shape(file@, prefix@ + "decoder.proj_out.weight"@, 1),
            quantizations@.len() == file@.len(),
            forall|i: int|
                0 <= i < file@.len() ==> ((#[trigger] decoder_part(file@, prefix@, i)) matches Ok(
                    DecoderPart::Quantization(_),
                ) ==> quantizations@[i] is Some),
        ensures
            ({
                let parts = checkpoint::all_of(decoder_row(file@, prefix@, quantizations@), file@.len() as int);
                let refusal = |config: VideoDecoderConfig|
                    config_refusal(file@, prefix@, config, tile_size, tile_overlap_min);
                match missing_for_config(file@, prefix@) {
                    Some(name) => load matches Err(error) && error.says(model::missing_tensor(name)),
                    None => match load {
                        Ok(load) => {
                            &&& is_config(file@, prefix@, load.config)
                            &&& refusal(load.config) is None
                            &&& parts == Ok::<Seq<DecoderPart>, Seq<char>>(decoder_parts(load.tensors@))
                            &&& load.quantized == has_int8(file@, prefix@, file@.len() as int)
                        },
                        Err(error) => exists|config: VideoDecoderConfig|
                            #[trigger] is_config(file@, prefix@, config) && (match refusal(config) {
                                Some(words) => error.says(words),
                                None => parts matches Err(words) && error.says(words),
                            }),
                    },
                }
            }),
    {
        let config = decoder_config(file, prefix, tile_size, tile_overlap_min)?;
        let (tensors, quantized) = match load_tensors(file, prefix, quantizations) {
            Ok(found) => found,
            Err(error) => {
                assert(is_config(file@, prefix@, config));
                return Err(error);
            },
        };
        Ok(DecoderLoad { config, tensors, quantized })
    }

    pub fn config(&self) -> (config: &VideoDecoderConfig)
        ensures
            *config == self.config,
    {
        &self.config
    }

    /// The tensors whose rows are put in the order of the INT8 GEMM's SwiGLU output once they are loaded.
    pub fn interleaved(&self) -> (names: Result<Vec<String>, Error>)
        requires
            self.tensors.valid(),
        ensures
            match model::interleaved_layers(
                self.tensors,
                "transformer_blocks."@,
                ".ff.w1"@,
                true,
                self.config.layers as int,
            ) {
                Ok(list) => names matches Ok(names) && model::letters(names@) == list,
                Err(words) => names matches Err(error) && error.says(words),
            },
    {
        self.tensors.interleaved("transformer_blocks.", self.config.layers, ".ff.w1", true)
    }

    /// The launches that decode a batch of tiles, or why there are none.
    pub fn decode_tiles(&self, batch: &TileBatch) -> (steps: Result<Vec<VaeStep>, Error>)
        requires
            self.tensors.valid(),
            forall|which: VaeLayer| #[trigger] is_matrix(self.tensors, which),
        ensures
            plan::agrees(steps, tiles_plan(self.tensors, self.config, *batch)),
    {
        decode_tiles(&self.tensors, &self.config, batch)
    }

    /// What decoding a latent of this shape does, or why it does not. A latent of more than one frame decodes in
    /// overlapping chunks of 7 latent frames.
    pub fn decode(
        &self,
        shape: &Vec<usize>,
        plan: &TemporalPlan,
        grid: &TileGrid,
        capture: bool,
    ) -> (decoding: Result<Decoding, Error>)
        requires
            latent_refusal(self.config, shape@) is None ==> decodable(self.config, shape@, *grid),
            plan.chunks@.len() * 17 <= usize::MAX,
            forall|k: int| 0 <= k < plan.chunks@.len() ==> (#[trigger] plan.chunks@[k]).start <= plan.chunks@[k].end,
        ensures
            match latent_refusal(self.config, shape@) {
                Some(words) => decoding matches Err(error) && error.says(words),
                None => match decoding {
                    Ok(decoding) => {
                        &&& shape@[1] > 1 ==> forall|k: int|
                            0 <= k < plan.chunks@.len() ==> (#[trigger] plan.chunks@[k]).size() == 7
                        &&& is_decoding(self.config, shape@, *plan, *grid, capture, decoding)
                    },
                    Err(error) => shape@[1] > 1 && exists|chunk: int|
                        #[trigger] first_wrong(plan.chunks@, chunk) && error.says(
                            wrong_chunk(chunk, plan.chunks@[chunk]),
                        ),
                },
            },
    {
        if shape.len() != 4 {
            let mut message = String::from_str("latent shape ");
            text::push_list(&mut message, shape);
            message.append(" is not [channels, frames, height, width]");
            return Err(Error::Model(message));
        }
        if shape[0] != self.config.latent_channels || shape[1] == 0 {
            let mut message = String::from_str("latent shape ");
            text::push_list(&mut message, shape);
            message.append(" does not match the decoder");
            return Err(Error::Model(message));
        }
        let single = shape[1] == 1;
        let chunk_frames: usize = if single {
            1
        } else {
            CHUNK_TOKENS + CHUNK_OVERLAP_TOKENS
        };
        let output_frames: usize = if single {
            1
        } else {
            plan.frames
        };
        let tall: usize = grid.latent_height();
        let wide: usize = grid.latent_width();
        let tiles: usize = grid.count();
        proof {
            arithmetic::products_grow(chunk_frames as int, tall as int, 7, tall as int);
            arithmetic::products_grow(chunk_frames * tall, wide as int, 7 * tall, wide as int);
            arithmetic::products_grow(
                tiles as int,
                chunk_frames * tall * wide + self.config.registers + 1,
                tiles as int,
                7 * tall * wide + self.config.registers + 1,
            );
        }
        let patches: usize = chunk_frames * tall * wide;
        let tile_tokens: usize = patches + self.config.registers + 1;
        let batch = TileBatch { tiles, tile_tokens, patches, tokens: tiles * tile_tokens };
        let mut steps: Vec<DecodeStep> = Vec::new();
        if single {
            steps.push(DecodeStep::Upload { first_frame: 0 });
            steps.push(DecodeStep::Tiles);
            if capture {
                steps.push(DecodeStep::FirstTile);
            }
            steps.push(DecodeStep::Blend);
            steps.push(DecodeStep::Write { first: TEMPORAL_RATIO - 1, count: 1, blend: false, position: 0 });
            assert(steps@ =~= single_steps(capture));
        } else {
            push_chunks(&plan.chunks, output_frames, capture, &mut steps)?;
            assert(steps@ =~= chunks_steps(plan.chunks@, plan.frames, capture, plan.chunks@.len() as int));
        }
        Ok(
            Decoding {
                output_frames,
                height: shape[2] * SPATIAL_RATIO,
                width: shape[3] * SPATIAL_RATIO,
                chunk_frames,
                canvas_frames: chunk_frames * TEMPORAL_RATIO,
                batch,
                steps,
            },
        )
    }
}

/// How many of the actions write a frame of the output.
pub open spec fn writes_of(steps: Seq<DecodeStep>, frame: int) -> nat
    decreases steps.len(),
{
    if steps.len() == 0 {
        0
    } else {
        writes_of(steps.drop_last(), frame) + (if steps.last() matches DecodeStep::Write {
            first,
            count,
            blend,
            position,
        } && position <= frame < position + count {
            1nat
        } else {
            0nat
        })
    }
}

proof fn writes_add(one: Seq<DecodeStep>, other: Seq<DecodeStep>, frame: int)
    ensures
        writes_of(one + other, frame) == writes_of(one, frame) + writes_of(other, frame),
    decreases other.len(),
{
    if other.len() == 0 {
        assert(one + other =~= one);
    } else {
        writes_add(one, other.drop_last(), frame);
        assert((one + other).drop_last() =~= one + other.drop_last());
    }
}

proof fn a_chunk_writes(first_frame: usize, chunk: int, chunks: int, output_frames: usize, capture: bool, frame: int)
    requires
        0 <= chunk < chunks,
        0 <= frame < output_frames,
    ensures
        writes_of(chunk_steps(first_frame, chunk, chunks, output_frames, capture), frame) == (if chunk * 17 <= frame
            < chunk * 17 + 17 || (chunk + 1 == chunks && chunks * 17 <= frame < chunks * 17 + 5) {
            1nat
        } else {
            0nat
        }),
{
    let steps = chunk_steps(first_frame, chunk, chunks, output_frames, capture);
    let head = seq![DecodeStep::Upload { first_frame }, DecodeStep::Tiles] + (if capture && chunk == 0 {
        seq![DecodeStep::FirstTile]
    } else {
        Seq::empty()
    });
    let tail = seq![steps[steps.len() - 3], steps[steps.len() - 2], steps[steps.len() - 1]];
    assert(steps =~= head + tail);
    writes_add(head, tail, frame);
    reveal_with_fuel(writes_of, 4);
    assert(writes_of(head, frame) == 0);
    assert(tail.drop_last() =~= seq![tail[0], tail[1]]);
    assert(tail.drop_last().drop_last() =~= seq![tail[0]]);
    assert(seq![tail[0]].drop_last() =~= Seq::<DecodeStep>::empty());
}

proof fn chunks_write(runs: Seq<Run>, output_frames: usize, capture: bool, count: int, frame: int)
    requires
        0 <= count <= runs.len(),
        0 <= frame < output_frames,
    ensures
        writes_of(chunks_steps(runs, output_frames, capture, count), frame) == (if frame < count * 17 || (count
            == runs.len() && count > 0 && frame < count * 17 + 5) {
            1nat
        } else {
            0nat
        }),
    decreases count,
{
    if count > 0 {
        chunks_write(runs, output_frames, capture, count - 1, frame);
        let before = chunks_steps(runs, output_frames, capture, count - 1);
        let steps = chunk_steps(runs[count - 1].start, count - 1, runs.len() as int, output_frames, capture);
        a_chunk_writes(runs[count - 1].start, count - 1, runs.len() as int, output_frames, capture, frame);
        writes_add(before, steps, frame);
    }
}

/// Every frame of the output is written once, where the chunks have frames for all of it: 17 of each, and 5 more
/// of the last.
pub proof fn every_frame_is_written_once(runs: Seq<Run>, output_frames: usize, capture: bool, frame: int)
    requires
        runs.len() > 0,
        output_frames <= runs.len() * 17 + 5,
        0 <= frame < output_frames,
    ensures
        writes_of(chunks_steps(runs, output_frames, capture, runs.len() as int), frame) == 1,
{
    chunks_write(runs, output_frames, capture, runs.len() as int, frame);
}

} // verus!
