//! The MiniMax H3 text encoder on the GPU: the first 50 layers of the Qwen3-VL-32B language model. The hidden state
//! after the last layer, without the final norm, conditions the DiT.
//!
//! The residual stream stays in FP32 and the linear layers run through the INT8 ConvRot GEMM like the DiT's. The q, k
//! and v projections, and the gates and up projections, are concatenated on load so each pair or triple takes one GEMM.
use crate::arithmetic;
use crate::attention;
use crate::attention::{AttentionLayout, AttentionOffsets, HEAD_DIM};
use crate::checkpoint;
use crate::checkpoint::TensorInfo;
use crate::model;
use crate::model::{DType, DeviceTensors, Error, LinearStep, Quantization, CONVROT_GROUP};
use crate::plan;
use crate::text;
use vstd::prelude::*;

verus! {

/// What the names of the language model start with.
pub const PREFIX: &'static str = "model.";

#[derive(Clone, Copy, Debug, PartialEq, Eq, Structural)]
pub struct TextEncoderConfig {
    pub vocabulary: usize,
    pub hidden: usize,
    pub layers: usize,
    pub query_heads: usize,
    pub key_value_heads: usize,
    pub ffn: usize,
}

impl TextEncoderConfig {
    /// The sizes by their names.
    pub open spec fn words(self) -> Seq<char> {
        "TextEncoderConfig { vocabulary: "@ + text::decimal(self.vocabulary as nat) + ", hidden: "@ + text::decimal(
            self.hidden as nat,
        ) + ", layers: "@ + text::decimal(self.layers as nat) + ", query_heads: "@ + text::decimal(
            self.query_heads as nat,
        ) + ", key_value_heads: "@ + text::decimal(self.key_value_heads as nat) + ", ffn: "@ + text::decimal(
            self.ffn as nat,
        ) + " }"@
    }

    fn push_words(&self, message: &mut String)
        ensures
            final(message)@ == old(message)@ + self.words(),
    {
        let ghost before = message@;
        message.append("TextEncoderConfig { vocabulary: ");
        text::push_size(message, self.vocabulary);
        message.append(", hidden: ");
        text::push_size(message, self.hidden);
        message.append(", layers: ");
        text::push_size(message, self.layers);
        message.append(", query_heads: ");
        text::push_size(message, self.query_heads);
        message.append(", key_value_heads: ");
        text::push_size(message, self.key_value_heads);
        message.append(", ffn: ");
        text::push_size(message, self.ffn);
        message.append(" }");
        assert(message@ =~= before + self.words());
    }

    /// Values of a token's q, k and v.
    pub open spec fn qkv(self) -> int {
        (self.query_heads + 2 * self.key_value_heads) * HEAD_DIM
    }

    /// Values of a token's q, k and v.
    pub fn qkv_width(&self) -> (width: usize)
        requires
            self.qkv() <= usize::MAX,
        ensures
            width == self.qkv(),
    {
        (self.query_heads + 2 * self.key_value_heads) * HEAD_DIM
    }
}

/// Where the name of a language model tensor is in a file.
pub open spec fn at(file: Seq<TensorInfo>, name: Seq<char>) -> Option<int> {
    checkpoint::place_of(file, PREFIX@ + name)
}

/// That a tensor of the language model is missing.
pub open spec fn missing(name: Seq<char>) -> Seq<char> {
    model::missing_tensor(PREFIX@ + name)
}

/// The place of a tensor of the language model, or that it is missing.
pub fn tensor_info(file: &Vec<TensorInfo>, name: &str) -> (place: Result<usize, Error>)
    ensures
        match at(file@, name@) {
            Some(found) => place matches Ok(place) && place == found && place < file@.len(),
            None => place matches Err(error) && error.says(missing(name@)),
        },
{
    let mut whole = String::from_str(PREFIX);
    whole.append(name);
    checkpoint::need(file, whole)
}

/// The first of the tensors an encoder is read from that is missing.
pub open spec fn missing_for_config(file: Seq<TensorInfo>) -> Option<Seq<char>> {
    if at(file, "embed_tokens.weight"@) is None {
        Some("embed_tokens.weight"@)
    } else if at(file, "layers.0.self_attn.q_proj.weight"@) is None {
        Some("layers.0.self_attn.q_proj.weight"@)
    } else if at(file, "layers.0.self_attn.k_proj.weight"@) is None {
        Some("layers.0.self_attn.k_proj.weight"@)
    } else if at(file, "layers.0.mlp.gate_proj.weight"@) is None {
        Some("layers.0.mlp.gate_proj.weight"@)
    } else {
        None
    }
}

/// Whether `config` is the encoder of a checkpoint file.
pub open spec fn is_config(file: Seq<TensorInfo>, config: TextEncoderConfig) -> bool {
    &&& at(file, "embed_tokens.weight"@) matches Some(embedding)
    &&& at(file, "layers.0.self_attn.q_proj.weight"@) matches Some(query)
    &&& at(file, "layers.0.self_attn.k_proj.weight"@) matches Some(key)
    &&& at(file, "layers.0.mlp.gate_proj.weight"@) matches Some(gate)
    &&& config.vocabulary == file[embedding].shape@[0]
    &&& config.hidden == file[embedding].shape@[1]
    &&& checkpoint::holds_numbered(file, "model.layers."@, ".input_layernorm.weight"@, config.layers as nat)
    &&& config.query_heads == file[query].shape@[0] / HEAD_DIM
    &&& config.key_value_heads == file[key].shape@[0] / HEAD_DIM
    &&& config.ffn == file[gate].shape@[0]
}

/// What is said of an encoder that cannot run.
pub open spec fn config_refusal(file: Seq<TensorInfo>, config: TextEncoderConfig) -> Option<Seq<char>> {
    let embedding = file[at(file, "embed_tokens.weight"@)->0];
    if embedding.dtype != DType::Bf16 || config.query_heads % config.key_value_heads != 0 || config.hidden
        % CONVROT_GROUP != 0 {
        Some("unsupported text encoder "@ + config.words() + " with "@ + embedding.dtype.letters() + " embeddings"@)
    } else {
        None
    }
}

/// Whether the tensors an encoder is read from have their dimensions, and there is a key head.
pub open spec fn is_readable(file: Seq<TensorInfo>) -> bool {
    &&& at(file, "embed_tokens.weight"@) matches Some(place) ==> file[place].shape@.len() >= 2
    &&& at(file, "layers.0.self_attn.q_proj.weight"@) matches Some(place) ==> file[place].shape@.len() >= 1
    &&& at(file, "layers.0.self_attn.k_proj.weight"@) matches Some(place) ==> file[place].shape@.len() >= 1
        && file[place].shape@[0] >= HEAD_DIM
    &&& at(file, "layers.0.mlp.gate_proj.weight"@) matches Some(place) ==> file[place].shape@.len() >= 1
}

/// The encoder of a checkpoint file, or why there is none.
pub fn encoder_config(file: &Vec<TensorInfo>) -> (config: Result<TextEncoderConfig, Error>)
    requires
        is_readable(file@),
    ensures
        match missing_for_config(file@) {
            Some(name) => config matches Err(error) && error.says(missing(name)),
            None => match config {
                Ok(config) => is_config(file@, config) && config_refusal(file@, config) is None,
                Err(error) => exists|config: TextEncoderConfig|
                    is_config(file@, config) && (#[trigger] config_refusal(file@, config) matches Some(words)
                        && error.says(words)),
            },
        },
{
    let embedding: usize = tensor_info(file, "embed_tokens.weight")?;
    let query: usize = tensor_info(file, "layers.0.self_attn.q_proj.weight")?;
    let key: usize = tensor_info(file, "layers.0.self_attn.k_proj.weight")?;
    let gate: usize = tensor_info(file, "layers.0.mlp.gate_proj.weight")?;
    let config = TextEncoderConfig {
        vocabulary: file[embedding].shape[0],
        hidden: file[embedding].shape[1],
        layers: checkpoint::count_numbered(file, "model.layers.", ".input_layernorm.weight"),
        query_heads: file[query].shape[0] / HEAD_DIM,
        key_value_heads: file[key].shape[0] / HEAD_DIM,
        ffn: file[gate].shape[0],
    };
    assert(is_config(file@, config));
    let dtype = file[embedding].dtype;
    if dtype != DType::Bf16 || config.query_heads % config.key_value_heads != 0 || config.hidden % CONVROT_GROUP != 0 {
        let mut message = String::from_str("unsupported text encoder ");
        config.push_words(&mut message);
        message.append(" with ");
        message.append(dtype.name());
        message.append(" embeddings");
        assert(message@ == config_refusal(file@, config)->0);
        return Err(Error::Model(message));
    }
    assert(config_refusal(file@, config) is None);
    Ok(config)
}

/// A piece of a tensor that is put together of several: a tensor of the file, and where it goes.
#[derive(Clone, Copy, Debug, PartialEq, Eq, Structural)]
pub struct Piece {
    pub place: usize,
    pub offset: usize,
    pub bytes: usize,
}

/// INT8 ConvRot layers that are put together to one, whose output rows are theirs in order.
pub struct Joined {
    /// Their weights, and what those take together.
    pub weights: Vec<Piece>,
    pub weight_bytes: usize,
    /// Their scales, and what those take together.
    pub scales: Vec<Piece>,
    pub scale_bytes: usize,
    pub outputs: usize,
    /// The inputs they share, once there is one.
    pub features: Option<usize>,
}

/// Whether pieces lie one behind the other, from the beginning to `bytes`.
pub open spec fn follow(pieces: Seq<Piece>, bytes: int) -> bool {
    if pieces.len() == 0 {
        bytes == 0
    } else {
        &&& pieces[0].offset == 0
        &&& pieces.last().offset + pieces.last().bytes == bytes
        &&& forall|i: int|
            0 < i < pieces.len() ==> (#[trigger] pieces[i]).offset == pieces[i - 1].offset + pieces[i - 1].bytes
    }
}

/// Why a layer cannot be joined, once its quantization was checked.
pub open spec fn part_refusal(
    file: Seq<TensorInfo>,
    name: Seq<char>,
    part: Seq<char>,
    features: Option<usize>,
) -> Option<Seq<char>> {
    match at(file, part + ".weight"@) {
        None => Some(missing(part + ".weight"@)),
        Some(weight) => match at(file, part + ".weight_scale"@) {
            None => Some(missing(part + ".weight_scale"@)),
            Some(scale) => if file[weight].dtype != DType::I8 || file[scale].dtype != DType::F32
                || checkpoint::elements(file[scale].shape@) != file[weight].shape@[0] {
                Some(part + " is not a per-channel INT8 layer"@)
            } else if features matches Some(features) && features != file[weight].shape@[1] {
                Some(part + " does not share its input width with "@ + name)
            } else {
                None
            },
        },
    }
}

impl Joined {
    pub open spec fn valid(self) -> bool {
        &&& self.weights@.len() == self.scales@.len()
        &&& follow(self.weights@, self.weight_bytes as int)
        &&& follow(self.scales@, self.scale_bytes as int)
        &&& (self.features is None) == (self.weights@.len() == 0)
    }

    pub fn new() -> (joined: Joined)
        ensures
            joined.valid(),
            joined.weights@.len() == 0,
            joined.outputs == 0,
    {
        Joined {
            weights: Vec::new(),
            weight_bytes: 0,
            scales: Vec::new(),
            scale_bytes: 0,
            outputs: 0,
            features: None,
        }
    }

    /// Joins the layer `part` to the one named `name`, behind those that are there. What the file says of its
    /// quantization comes along.
    pub fn insert(&mut self, file: &Vec<TensorInfo>, name: &str, part: &str, quantization: Quantization) -> (result:
        Result<(), Error>)
        requires
            old(self).valid(),
            at(file@, part@ + ".weight"@) matches Some(weight) ==> {
                &&& file@[weight].shape@.len() >= 2
                &&& checkpoint::elements(file@[weight].shape@) + old(self).weight_bytes <= usize::MAX
                &&& file@[weight].shape@[0] + old(self).outputs <= usize::MAX
                &&& file@[weight].shape@[0] * 4 + old(self).scale_bytes <= usize::MAX
            },
        ensures
            final(self).valid(),
            match quantization {
                Quantization::NotText => result matches Err(error) && error.says(part@ + " is not UTF-8"@),
                Quantization::Unreadable(reason) => result matches Err(error) && error.says(part@ + ": "@ + reason@),
                Quantization::Read { text, format, convrot, group } => if !model::is_convrot(format, convrot, group) {
                    result matches Err(error) && error.says(part@ + ": unsupported quantization "@ + text@)
                } else {
                    match part_refusal(file@, name@, part@, old(self).features) {
                        Some(words) => result matches Err(error) && error.says(words),
                        None => {
                            let weight = at(file@, part@ + ".weight"@)->0;
                            let scale = at(file@, part@ + ".weight_scale"@)->0;
                            let shape = file@[weight].shape@;
                            &&& result is Ok
                            &&& final(self).outputs == old(self).outputs + shape[0]
                            &&& final(self).features == Some(shape[1])
                            &&& final(self).weights@ == old(self).weights@.push(
                                Piece {
                                    place: weight as usize,
                                    offset: old(self).weight_bytes,
                                    bytes: checkpoint::elements(shape) as usize,
                                },
                            )
                            &&& final(self).scales@ == old(self).scales@.push(
                                Piece {
                                    place: scale as usize,
                                    offset: old(self).scale_bytes,
                                    bytes: (shape[0] * 4) as usize,
                                },
                            )
                        },
                    }
                },
            },
            result is Err ==> *final(self) == *old(self),
    {
        model::check_quantization(part, &quantization)?;
        let mut weight_name = String::from_str(part);
        weight_name.append(".weight");
        let mut scale_name = String::from_str(part);
        scale_name.append(".weight_scale");
        let weight: usize = tensor_info(file, weight_name.as_str())?;
        let scale: usize = tensor_info(file, scale_name.as_str())?;
        let rows: usize = file[weight].shape[0];
        let inputs: usize = file[weight].shape[1];
        if file[weight].dtype != DType::I8 || file[scale].dtype != DType::F32 || !checkpoint::has_elements(
            &file[scale].shape,
            rows,
        ) {
            let mut message = String::from_str(part);
            message.append(" is not a per-channel INT8 layer");
            return Err(Error::Model(message));
        }
        if let Some(features) = self.features {
            if features != inputs {
                let mut message = String::from_str(part);
                message.append(" does not share its input width with ");
                message.append(name);
                return Err(Error::Model(message));
            }
        }
        let bytes: usize = checkpoint::count_elements(&file[weight].shape);
        self.weights.push(Piece { place: weight, offset: self.weight_bytes, bytes });
        self.weight_bytes = self.weight_bytes + bytes;
        self.scales.push(Piece { place: scale, offset: self.scale_bytes, bytes: rows * 4 });
        self.scale_bytes = self.scale_bytes + rows * 4;
        self.outputs = self.outputs + rows;
        self.features = Some(inputs);
        Ok(())
    }
}

/// The linear layers of a layer of the language model.
#[derive(Clone, Copy, Debug, PartialEq, Eq, Structural)]
pub enum TextPart {
    Qkv,
    Out,
    GateUp,
    Down,
}

impl TextPart {
    pub open spec fn letters(self) -> Seq<char> {
        match self {
            TextPart::Qkv => ".self_attn.qkv_proj"@,
            TextPart::Out => ".self_attn.o_proj"@,
            TextPart::GateUp => ".mlp.gate_up_proj"@,
            TextPart::Down => ".mlp.down_proj"@,
        }
    }

    /// What comes behind the name of a decoder layer.
    pub fn suffix(self) -> (suffix: &'static str)
        ensures
            suffix@ == self.letters(),
    {
        match self {
            TextPart::Qkv => ".self_attn.qkv_proj",
            TextPart::Out => ".self_attn.o_proj",
            TextPart::GateUp => ".mlp.gate_up_proj",
            TextPart::Down => ".mlp.down_proj",
        }
    }
}

/// One launch of the encoder.
#[derive(Clone, Copy, Debug, PartialEq, Eq, Structural)]
pub enum TextStep {
    /// The embeddings of the token ids into the residual.
    Embed { tokens: usize, hidden: usize },
    /// Normalizes the residual before the attention, or before the MLP.
    Normalize { layer: usize, second: bool, tokens: usize, hidden: usize },
    Linear { part: TextPart, layer: usize, step: LinearStep },
    QkNormRope { layer: usize, pairs: usize, tokens: usize, query_heads: usize, key_heads: usize },
    /// Causal attention with the keys and values at these places of a row.
    Attend { tokens: usize, heads: usize, key: usize, value: usize },
    AddResidual { tokens: usize, hidden: usize },
    SwiGlu { tokens: usize, ffn: usize },
    /// Takes the hidden states after a layer.
    Capture { layer: usize },
}

/// The launches of an encoder, or why there are none.
pub type TextPlan = plan::Plan<TextStep>;

/// The name of a tensor of a layer.
pub open spec fn layer_name(layer: usize, rest: Seq<char>) -> Seq<char> {
    "layers."@ + text::decimal(layer as nat) + rest
}

fn named(layer: usize, rest: &str) -> (name: String)
    ensures
        name@ == layer_name(layer, rest@),
{
    let mut name = String::from_str("layers.");
    text::push_size(&mut name, layer);
    name.append(rest);
    name
}

/// A launch that reads a tensor, where the tensor is there.
pub open spec fn reading(tensors: DeviceTensors, name: Seq<char>, step: TextStep) -> TextPlan {
    if tensors.find(name) is Some {
        Ok(seq![step])
    } else {
        Err(model::missing_tensor(name))
    }
}

fn read(tensors: &DeviceTensors, name: String, step: TextStep, steps: &mut Vec<TextStep>) -> (result: Result<(), Error>)
    requires
        tensors.valid(),
    ensures
        plan::added(old(steps)@, final(steps)@, result, reading(*tensors, name@, step)),
{
    match tensors.get(name.as_str()) {
        Ok(_) => {
            steps.push(step);
            Ok(())
        },
        Err(error) => Err(error),
    }
}

pub open spec fn launches(part: TextPart, layer: usize, steps: Seq<LinearStep>) -> Seq<TextStep> {
    Seq::new(steps.len(), |i: int| TextStep::Linear { part, layer, step: steps[i] })
}

/// The launches of a linear layer.
#[verifier::opaque]
pub open spec fn linear_plan(tensors: DeviceTensors, part: TextPart, layer: usize, tokens: usize) -> TextPlan {
    let name = layer_name(layer, part.letters());
    match model::linear_steps(name, tensors.layer_of(name), tokens, None) {
        Ok(steps) => Ok(launches(part, layer, steps)),
        Err(words) => Err(words),
    }
}

/// Whether the weight of a layer has its outputs and inputs, where there is one.
pub open spec fn is_matrix(tensors: DeviceTensors, part: TextPart, layer: usize) -> bool {
    tensors.find(layer_name(layer, part.letters()) + ".weight"@) matches Some(weight) ==> weight.shape@.len() >= 2
}

fn linear(tensors: &DeviceTensors, part: TextPart, layer: usize, tokens: usize, steps: &mut Vec<TextStep>) -> (result:
    Result<(), Error>)
    requires
        tensors.valid(),
        is_matrix(*tensors, part, layer),
    ensures
        plan::added(old(steps)@, final(steps)@, result, linear_plan(*tensors, part, layer, tokens)),
{
    proof {
        reveal(linear_plan);
    }
    let name = named(layer, part.suffix());
    let list = model::linear(name.as_str(), tensors.layer(name.as_str()), tokens, None)?;
    let ghost before = steps@;
    let count: usize = list.len();
    for index in 0..count
        invariant
            count == list@.len(),
            steps@ =~= before + launches(part, layer, list@.take(index as int)),
    {
        steps.push(TextStep::Linear { part, layer, step: list[index] });
    }
    assert(list@.take(count as int) =~= list@);
    Ok(())
}

/// The attention half of a layer.
#[verifier::opaque]
pub open spec fn attention_plan(
    tensors: DeviceTensors,
    config: TextEncoderConfig,
    tokens: usize,
    layer: usize,
) -> TextPlan {
    let key = config.query_heads * HEAD_DIM;
    plan::both(
        reading(
            tensors,
            layer_name(layer, ".input_layernorm.weight"@),
            TextStep::Normalize { layer, second: false, tokens, hidden: config.hidden },
        ),
        plan::both(
            linear_plan(tensors, TextPart::Qkv, layer, tokens),
            plan::both(
                if tensors.find(layer_name(layer, ".self_attn.q_norm.weight"@)) is None {
                    Err(model::missing_tensor(layer_name(layer, ".self_attn.q_norm.weight"@)))
                } else {
                    reading(
                        tensors,
                        layer_name(layer, ".self_attn.k_norm.weight"@),
                        TextStep::QkNormRope {
                            layer,
                            pairs: HEAD_DIM / 2,
                            tokens,
                            query_heads: config.query_heads,
                            key_heads: config.key_value_heads,
                        },
                    )
                },
                plan::both(
                    Ok(
                        seq![
                            TextStep::Attend {
                                tokens,
                                heads: config.query_heads,
                                key: key as usize,
                                value: (key + config.key_value_heads * HEAD_DIM) as usize,
                            },
                        ],
                    ),
                    plan::both(
                        linear_plan(tensors, TextPart::Out, layer, tokens),
                        Ok(seq![TextStep::AddResidual { tokens, hidden: config.hidden }]),
                    ),
                ),
            ),
        ),
    )
}

/// The MLP half of a layer.
#[verifier::opaque]
pub open spec fn mlp_plan(
    tensors: DeviceTensors,
    config: TextEncoderConfig,
    tokens: usize,
    layer: usize,
) -> TextPlan {
    plan::both(
        reading(
            tensors,
            layer_name(layer, ".post_attention_layernorm.weight"@),
            TextStep::Normalize { layer, second: true, tokens, hidden: config.hidden },
        ),
        plan::both(
            linear_plan(tensors, TextPart::GateUp, layer, tokens),
            plan::both(
                Ok(seq![TextStep::SwiGlu { tokens, ffn: config.ffn }]),
                plan::both(
                    linear_plan(tensors, TextPart::Down, layer, tokens),
                    Ok(seq![TextStep::AddResidual { tokens, hidden: config.hidden }]),
                ),
            ),
        ),
    )
}

/// The first `count` layers, with the hidden states taken after the captured ones.
pub open spec fn layers_plan(
    tensors: DeviceTensors,
    config: TextEncoderConfig,
    tokens: usize,
    capture: Seq<usize>,
    count: int,
) -> TextPlan
    decreases count,
{
    if count <= 0 {
        plan::nothing()
    } else {
        let layer = (count - 1) as usize;
        plan::both(
            layers_plan(tensors, config, tokens, capture, count - 1),
            plan::both(
                attention_plan(tensors, config, tokens, layer),
                plan::both(
                    mlp_plan(tensors, config, tokens, layer),
                    plan::when(capture.contains(layer), Ok(seq![TextStep::Capture { layer }])),
                ),
            ),
        )
    }
}

/// From the token ids to the hidden states after the last layer.
pub open spec fn encode_plan(
    tensors: DeviceTensors,
    config: TextEncoderConfig,
    ids: Seq<u32>,
    capture: Seq<usize>,
) -> TextPlan {
    let tokens = ids.len() as usize;
    if tokens == 0 || exists|i: int| 0 <= i < ids.len() && #[trigger] ids[i] >= config.vocabulary {
        Err("token ids must be non-empty and below "@ + text::decimal(config.vocabulary as nat))
    } else {
        plan::both(
            reading(tensors, "embed_tokens.weight"@, TextStep::Embed { tokens, hidden: config.hidden }),
            layers_plan(tensors, config, tokens, capture, config.layers as int),
        )
    }
}

fn attend(tensors: &DeviceTensors, config: &TextEncoderConfig, tokens: usize, layer: usize, steps: &mut Vec<TextStep>) -> (result:
    Result<(), Error>)
    requires
        tensors.valid(),
        forall|part: TextPart, layer: usize| #[trigger] is_matrix(*tensors, part, layer),
        config.qkv() <= usize::MAX,
    ensures
        plan::added(old(steps)@, final(steps)@, result, attention_plan(*tensors, *config, tokens, layer)),
{
    proof {
        reveal(attention_plan);
    }
    let ghost before = steps@;
    read(
        tensors,
        named(layer, ".input_layernorm.weight"),
        TextStep::Normalize { layer, second: false, tokens, hidden: config.hidden },
        steps,
    )?;
    linear(tensors, TextPart::Qkv, layer, tokens, steps)?;
    let query = named(layer, ".self_attn.q_norm.weight");
    tensors.get(query.as_str())?;
    read(
        tensors,
        named(layer, ".self_attn.k_norm.weight"),
        TextStep::QkNormRope {
            layer,
            pairs: HEAD_DIM / 2,
            tokens,
            query_heads: config.query_heads,
            key_heads: config.key_value_heads,
        },
        steps,
    )?;
    let key: usize = config.query_heads * HEAD_DIM;
    steps.push(
        TextStep::Attend {
            tokens,
            heads: config.query_heads,
            key,
            value: key + config.key_value_heads * HEAD_DIM,
        },
    );
    linear(tensors, TextPart::Out, layer, tokens, steps)?;
    steps.push(TextStep::AddResidual { tokens, hidden: config.hidden });
    proof {
        let list = attention_plan(*tensors, *config, tokens, layer)->Ok_0;
        assert(steps@ =~= before + list);
    }
    Ok(())
}

fn mlp(tensors: &DeviceTensors, config: &TextEncoderConfig, tokens: usize, layer: usize, steps: &mut Vec<TextStep>) -> (result:
    Result<(), Error>)
    requires
        tensors.valid(),
        forall|part: TextPart, layer: usize| #[trigger] is_matrix(*tensors, part, layer),
    ensures
        plan::added(old(steps)@, final(steps)@, result, mlp_plan(*tensors, *config, tokens, layer)),
{
    proof {
        reveal(mlp_plan);
    }
    let ghost before = steps@;
    read(
        tensors,
        named(layer, ".post_attention_layernorm.weight"),
        TextStep::Normalize { layer, second: true, tokens, hidden: config.hidden },
        steps,
    )?;
    linear(tensors, TextPart::GateUp, layer, tokens, steps)?;
    steps.push(TextStep::SwiGlu { tokens, ffn: config.ffn });
    linear(tensors, TextPart::Down, layer, tokens, steps)?;
    steps.push(TextStep::AddResidual { tokens, hidden: config.hidden });
    proof {
        let list = mlp_plan(*tensors, *config, tokens, layer)->Ok_0;
        assert(steps@ =~= before + list);
    }
    Ok(())
}

proof fn a_refused_layer_stays(
    tensors: DeviceTensors,
    config: TextEncoderConfig,
    tokens: usize,
    capture: Seq<usize>,
    count: int,
    all: int,
)
    requires
        0 <= count <= all,
        layers_plan(tensors, config, tokens, capture, count) is Err,
    ensures
        layers_plan(tensors, config, tokens, capture, all) == layers_plan(tensors, config, tokens, capture, count),
    decreases all,
{
    if count < all {
        a_refused_layer_stays(tensors, config, tokens, capture, count, all - 1);
    }
}

fn contains(list: &Vec<usize>, wanted: usize) -> (found: bool)
    ensures
        found == list@.contains(wanted),
{
    let count: usize = list.len();
    for index in 0..count
        invariant
            count == list@.len(),
            forall|i: int| 0 <= i < index ==> list@[i] != wanted,
    {
        if list[index] == wanted {
            return true;
        }
    }
    false
}

fn run_layers(
    tensors: &DeviceTensors,
    config: &TextEncoderConfig,
    tokens: usize,
    capture: &Vec<usize>,
    steps: &mut Vec<TextStep>,
) -> (result: Result<(), Error>)
    requires
        tensors.valid(),
        forall|part: TextPart, layer: usize| #[trigger] is_matrix(*tensors, part, layer),
        config.qkv() <= usize::MAX,
    ensures
        plan::added(
            old(steps)@,
            final(steps)@,
            result,
            layers_plan(*tensors, *config, tokens, capture@, config.layers as int),
        ),
{
    let ghost before = steps@;
    for layer in 0..config.layers
        invariant
            tensors.valid(),
            forall|part: TextPart, layer: usize| #[trigger] is_matrix(*tensors, part, layer),
            config.qkv() <= usize::MAX,
            plan::added(before, steps@, Ok(()), layers_plan(*tensors, *config, tokens, capture@, layer as int)),
    {
        let result = attend(tensors, config, tokens, layer, steps);
        if result.is_err() {
            proof {
                a_refused_layer_stays(*tensors, *config, tokens, capture@, layer + 1, config.layers as int);
            }
            return result;
        }
        let result = mlp(tensors, config, tokens, layer, steps);
        if result.is_err() {
            proof {
                a_refused_layer_stays(*tensors, *config, tokens, capture@, layer + 1, config.layers as int);
            }
            return result;
        }
        if contains(capture, layer) {
            steps.push(TextStep::Capture { layer });
        }
    }
    Ok(())
}

/// A step of loading a language model.
pub enum TextLoad {
    /// Uploads the tensor of a name.
    Tensor(String),
    /// Uploads layers as one of a name whose output rows are theirs in order.
    Join { name: String, parts: Vec<String> },
}

/// What a step of loading does.
#[verifier::ext_equal]
pub ghost enum TextLoading {
    Tensor(Seq<char>),
    Join { name: Seq<char>, parts: Seq<Seq<char>> },
}

impl View for TextLoad {
    type V = TextLoading;

    open spec fn view(&self) -> TextLoading {
        match self {
            TextLoad::Tensor(name) => TextLoading::Tensor(name@),
            TextLoad::Join { name, parts } => TextLoading::Join { name: name@, parts: model::letters(parts@) },
        }
    }
}

/// What steps of loading do.
pub open spec fn loading(steps: Seq<TextLoad>) -> Seq<TextLoading> {
    steps.map_values(|step: TextLoad| step@)
}

/// What loading a layer does.
pub open spec fn layer_loading(layer: usize) -> Seq<TextLoading> {
    let of = |rest: Seq<char>| layer_name(layer, rest);
    seq![
        TextLoading::Tensor(of(".input_layernorm.weight"@)),
        TextLoading::Tensor(of(".post_attention_layernorm.weight"@)),
        TextLoading::Tensor(of(".self_attn.q_norm.weight"@)),
        TextLoading::Tensor(of(".self_attn.k_norm.weight"@)),
        TextLoading::Join {
            name: of(".self_attn.qkv_proj"@),
            parts: seq![of(".self_attn.q_proj"@), of(".self_attn.k_proj"@), of(".self_attn.v_proj"@)],
        },
        TextLoading::Join { name: of(".self_attn.o_proj"@), parts: seq![of(".self_attn.o_proj"@)] },
        TextLoading::Join {
            name: of(".mlp.gate_up_proj"@),
            parts: seq![of(".mlp.gate_proj"@), of(".mlp.up_proj"@)],
        },
        TextLoading::Join { name: of(".mlp.down_proj"@), parts: seq![of(".mlp.down_proj"@)] },
    ]
}

/// What loading the first `layers` layers behind the embeddings does.
pub open spec fn layers_loading(layers: int) -> Seq<TextLoading>
    decreases layers,
{
    if layers <= 0 {
        seq![TextLoading::Tensor("embed_tokens.weight"@)]
    } else {
        layers_loading(layers - 1) + layer_loading((layers - 1) as usize)
    }
}

fn load_layer(layer: usize, steps: &mut Vec<TextLoad>)
    ensures
        loading(final(steps)@) == loading(old(steps)@) + layer_loading(layer),
{
    let ghost before = steps@;
    steps.push(TextLoad::Tensor(named(layer, ".input_layernorm.weight")));
    steps.push(TextLoad::Tensor(named(layer, ".post_attention_layernorm.weight")));
    steps.push(TextLoad::Tensor(named(layer, ".self_attn.q_norm.weight")));
    steps.push(TextLoad::Tensor(named(layer, ".self_attn.k_norm.weight")));
    let mut qkv: Vec<String> = Vec::new();
    qkv.push(named(layer, ".self_attn.q_proj"));
    qkv.push(named(layer, ".self_attn.k_proj"));
    qkv.push(named(layer, ".self_attn.v_proj"));
    let mut out: Vec<String> = Vec::new();
    out.push(named(layer, ".self_attn.o_proj"));
    let mut gate_up: Vec<String> = Vec::new();
    gate_up.push(named(layer, ".mlp.gate_proj"));
    gate_up.push(named(layer, ".mlp.up_proj"));
    let mut down: Vec<String> = Vec::new();
    down.push(named(layer, ".mlp.down_proj"));
    proof {
        let of = |rest: Seq<char>| layer_name(layer, rest);
        assert(model::letters(qkv@) =~= seq![
            of(".self_attn.q_proj"@),
            of(".self_attn.k_proj"@),
            of(".self_attn.v_proj"@),
        ]);
        assert(model::letters(out@) =~= seq![of(".self_attn.o_proj"@)]);
        assert(model::letters(gate_up@) =~= seq![of(".mlp.gate_proj"@), of(".mlp.up_proj"@)]);
        assert(model::letters(down@) =~= seq![of(".mlp.down_proj"@)]);
    }
    steps.push(TextLoad::Join { name: named(layer, ".self_attn.qkv_proj"), parts: qkv });
    steps.push(TextLoad::Join { name: named(layer, ".self_attn.o_proj"), parts: out });
    steps.push(TextLoad::Join { name: named(layer, ".mlp.gate_up_proj"), parts: gate_up });
    steps.push(TextLoad::Join { name: named(layer, ".mlp.down_proj"), parts: down });
    assert(loading(steps@) =~= loading(before) + layer_loading(layer));
}

/// A language model whose weights are on the device.
pub struct CudaTextEncoder {
    pub config: TextEncoderConfig,
    pub tensors: DeviceTensors,
}

impl CudaTextEncoder {
    /// What loading the language model of a ComfyUI text encoder checkpoint with INT8 ConvRot linear layers does, in
    /// its order: the embeddings, then each layer's norms and its linear layers, some of which are joined.
    pub fn load(config: &TextEncoderConfig) -> (steps: Vec<TextLoad>)
        ensures
            loading(steps@) == layers_loading(config.layers as int),
    {
        let mut steps: Vec<TextLoad> = Vec::new();
        steps.push(TextLoad::Tensor(String::from_str("embed_tokens.weight")));
        assert(loading(steps@) =~= layers_loading(0));
        for layer in 0..config.layers
            invariant
                loading(steps@) == layers_loading(layer as int),
        {
            load_layer(layer, &mut steps);
        }
        steps
    }

    pub fn config(&self) -> (config: &TextEncoderConfig)
        ensures
            *config == self.config,
    {
        &self.config
    }

    /// The launches that encode token ids to the conditioning `[tokens, hidden]`, capturing the hidden states after the
    /// listed layers, or why there are none.
    pub fn encode(&self, ids: &Vec<u32>, capture: &Vec<usize>) -> (steps: Result<Vec<TextStep>, Error>)
        requires
            self.tensors.valid(),
            forall|part: TextPart, layer: usize| #[trigger] is_matrix(self.tensors, part, layer),
            self.config.qkv() <= usize::MAX,
        ensures
            plan::agrees(steps, encode_plan(self.tensors, self.config, ids@, capture@)),
    {
        let tokens: usize = ids.len();
        let mut inside = tokens > 0;
        for index in 0..tokens
            invariant
                tokens == ids@.len(),
                inside == (tokens > 0 && forall|i: int| 0 <= i < index ==> #[trigger] ids@[i] < self.config.vocabulary),
        {
            if ids[index] as usize >= self.config.vocabulary {
                inside = false;
            }
        }
        if !inside {
            let mut message = String::from_str("token ids must be non-empty and below ");
            text::push_size(&mut message, self.config.vocabulary);
            return Err(Error::Model(message));
        }
        let mut steps: Vec<TextStep> = Vec::new();
        read(
            &self.tensors,
            String::from_str("embed_tokens.weight"),
            TextStep::Embed { tokens, hidden: self.config.hidden },
            &mut steps,
        )?;
        run_layers(&self.tensors, &self.config, tokens, capture, &mut steps)?;
        proof {
            let list = encode_plan(self.tensors, self.config, ids@, capture@)->Ok_0;
            assert(steps@ =~= list);
        }
        Ok(steps)
    }
}

/// The layout of the language model's attention: rows of q, k and v, some query heads to each key head, and no token
/// before those behind it.
pub fn layout(config: &TextEncoderConfig) -> (layout: AttentionLayout)
    requires
        config.qkv() <= i64::MAX,
        config.qkv() <= usize::MAX,
        config.key_value_heads > 0,
        config.query_heads / config.key_value_heads <= i32::MAX,
    ensures
        layout.token_stride@ == seq![
            config.qkv() as i64,
            config.qkv() as i64,
            config.qkv() as i64,
            (config.query_heads * HEAD_DIM) as i64,
        ],
        layout.head_stride@ == seq![HEAD_DIM as i64, HEAD_DIM as i64, HEAD_DIM as i64, HEAD_DIM as i64],
        layout.batch_stride@ == seq![0i64, 0i64, 0i64, 0i64],
        layout.heads_per_key_value == config.query_heads / config.key_value_heads,
        layout.causal == 1,
{
    let width: i64 = config.qkv_width() as i64;
    let inner: i64 = (config.query_heads * HEAD_DIM) as i64;
    let dim: i64 = HEAD_DIM as i64;
    let layout = AttentionLayout {
        token_stride: [width, width, width, inner],
        head_stride: [dim, dim, dim, dim],
        batch_stride: [0, 0, 0, 0],
        heads_per_key_value: (config.query_heads / config.key_value_heads) as i32,
        causal: 1,
    };
    assert(layout.token_stride@ =~= seq![width, width, width, inner]);
    assert(layout.head_stride@ =~= seq![dim, dim, dim, dim]);
    assert(layout.batch_stride@ =~= seq![0i64, 0i64, 0i64, 0i64]);
    layout
}

/// The attention of a prompt stays inside the rows of its tokens, with the keys and values at their places of a row.
pub proof fn a_prompt_attends_inside(config: TextEncoderConfig, layout: AttentionLayout, tokens: int)
    requires
        tokens > 0,
        config.query_heads > 0,
        config.key_value_heads > 0,
        config.query_heads as int % config.key_value_heads as int == 0,
        config.qkv() <= i64::MAX,
        config.qkv() <= usize::MAX,
        layout.token_stride@ == seq![
            config.qkv() as i64,
            config.qkv() as i64,
            config.qkv() as i64,
            (config.query_heads * HEAD_DIM) as i64,
        ],
        layout.head_stride@ == seq![HEAD_DIM as i64, HEAD_DIM as i64, HEAD_DIM as i64, HEAD_DIM as i64],
        layout.batch_stride@ == seq![0i64, 0i64, 0i64, 0i64],
        layout.heads_per_key_value == config.query_heads / config.key_value_heads,
    ensures
        attention::reaches(
            layout,
            (AttentionOffsets {
                query: 0,
                key: (config.query_heads * HEAD_DIM) as usize,
                value: ((config.query_heads + config.key_value_heads) * HEAD_DIM) as usize,
                output: 0,
            }),
            1,
            tokens,
            config.query_heads as int,
            HEAD_DIM as int,
            tokens * config.qkv() * 2,
            tokens * (config.query_heads * HEAD_DIM) * 2,
        ),
{
    let (queries, keys) = (config.query_heads as int, config.key_value_heads as int);
    let group = queries / keys;
    vstd::arithmetic::div_mod::lemma_fundamental_div_mod(queries, keys);
    assert(group >= 1) by (nonlinear_arith)
        requires
            queries == keys * group,
            queries > 0,
            keys > 0,
    ;
    assert(queries / group == keys) by (nonlinear_arith)
        requires
            queries == keys * group,
            group >= 1,
    ;
    let (row, inner) = (config.qkv(), queries * HEAD_DIM);
    assert((tokens - 1) * row + row == tokens * row) by (nonlinear_arith);
    assert((tokens - 1) * inner + inner == tokens * inner) by (nonlinear_arith);
}

/// The bytes of the buffers of one prompt.
#[derive(Clone, Copy, Debug, PartialEq, Eq, Structural)]
pub struct TextWorkspace {
    pub residual: usize,
    pub normalized: usize,
    pub qkv: usize,
    pub attention: usize,
    pub delta: usize,
    pub expanded: usize,
    pub activated: usize,
    pub quantized: usize,
    pub scales: usize,
}

impl TextWorkspace {
    /// The values of the widest quantized row.
    pub open spec fn widest(config: TextEncoderConfig) -> int {
        arithmetic::max(
            arithmetic::max(config.hidden as int, config.query_heads * HEAD_DIM),
            config.ffn as int,
        )
    }

    /// What every buffer holds.
    pub open spec fn sized(self, config: TextEncoderConfig, tokens: int) -> bool {
        let inner = config.query_heads * HEAD_DIM;
        &&& self.residual == tokens * config.hidden * 4
        &&& self.normalized == tokens * config.hidden * 2
        &&& self.qkv == tokens * config.qkv() * 2
        &&& self.attention == tokens * inner * 2
        &&& self.delta == tokens * config.hidden * 2
        &&& self.expanded == tokens * (2 * config.ffn) * 2
        &&& self.activated == tokens * config.ffn * 2
        &&& self.quantized == tokens * TextWorkspace::widest(config)
        &&& self.scales == tokens * 4
    }

    pub fn new(config: &TextEncoderConfig, tokens: usize) -> (workspace: TextWorkspace)
        requires
            config.qkv() <= usize::MAX,
            2 * config.ffn <= usize::MAX,
            tokens * config.hidden * 4 <= usize::MAX,
            tokens * config.qkv() * 2 <= usize::MAX,
            tokens * (2 * config.ffn) * 2 <= usize::MAX,
            tokens * 4 <= usize::MAX,
        ensures
            workspace.sized(*config, tokens as int),
    {
        let hidden: usize = config.hidden;
        let ffn: usize = config.ffn;
        let inner: usize = config.query_heads * HEAD_DIM;
        let width: usize = config.qkv_width();
        let widest: usize = arithmetic::greatest(arithmetic::greatest(hidden, inner), ffn);
        proof {
            assert(0 <= tokens * hidden && tokens * hidden * 2 <= tokens * hidden * 4) by (nonlinear_arith)
                requires
                    tokens >= 0,
                    hidden >= 0,
            ;
            assert(0 <= tokens * inner <= tokens * width) by (nonlinear_arith)
                requires
                    tokens >= 0,
                    0 <= inner <= width,
            ;
            assert(0 <= tokens * ffn && tokens * ffn * 2 <= tokens * (2 * ffn) * 2) by (nonlinear_arith)
                requires
                    tokens >= 0,
                    ffn >= 0,
            ;
        }
        TextWorkspace {
            residual: tokens * hidden * 4,
            normalized: tokens * hidden * 2,
            qkv: tokens * width * 2,
            attention: tokens * inner * 2,
            delta: tokens * hidden * 2,
            expanded: tokens * (2 * ffn) * 2,
            activated: tokens * ffn * 2,
            quantized: tokens * widest,
            scales: tokens * 4,
        }
    }

    /// The bytes of a layer's input and output.
    pub open spec fn buffers_of(self, part: TextPart) -> (usize, usize) {
        match part {
            TextPart::Qkv => (self.normalized, self.qkv),
            TextPart::Out => (self.attention, self.delta),
            TextPart::GateUp => (self.normalized, self.expanded),
            TextPart::Down => (self.activated, self.delta),
        }
    }
}

/// The outputs and inputs of a layer.
pub open spec fn part_shape(config: TextEncoderConfig, part: TextPart) -> (int, int) {
    match part {
        TextPart::Qkv => (config.qkv(), config.hidden as int),
        TextPart::Out => (config.hidden as int, config.query_heads * HEAD_DIM),
        TextPart::GateUp => (2 * config.ffn, config.hidden as int),
        TextPart::Down => (config.hidden as int, config.ffn as int),
    }
}

/// Every launch of a linear layer stays inside the buffers of its prompt.
pub proof fn a_layer_stays_in_its_workspace(
    config: TextEncoderConfig,
    workspace: TextWorkspace,
    name: Seq<char>,
    layer: model::Layer,
    part: TextPart,
    tokens: usize,
    step: int,
)
    requires
        workspace.sized(config, tokens as int),
        layer.outputs == part_shape(config, part).0,
        layer.features == part_shape(config, part).1,
        layer.dtype != DType::F32,
        model::linear_steps(name, Some(layer), tokens, None) is Ok,
        0 <= step < model::linear_steps(name, Some(layer), tokens, None)->Ok_0.len(),
    ensures
        model::stays_inside(
            model::linear_steps(name, Some(layer), tokens, None)->Ok_0[step],
            layer,
            (model::LinearBuffers {
                input: workspace.buffers_of(part).0,
                output: workspace.buffers_of(part).1,
                quantized: workspace.quantized,
                scales: workspace.scales,
                adapter: 0,
            }),
        ),
{
    let buffers = model::LinearBuffers {
        input: workspace.buffers_of(part).0,
        output: workspace.buffers_of(part).1,
        quantized: workspace.quantized,
        scales: workspace.scales,
        adapter: 0,
    };
    arithmetic::products_grow(
        tokens as int,
        layer.features as int,
        tokens as int,
        TextWorkspace::widest(config),
    );
    model::a_linear_layer_stays_in_its_buffers(name, layer, tokens, None, buffers, step);
}

impl TextWorkspace {
    /// Whether a launch stays inside the buffers it reads and writes.
    pub open spec fn holds(self, tensors: DeviceTensors, config: TextEncoderConfig, step: TextStep) -> bool {
        match step {
            TextStep::Embed { tokens, hidden } => tokens * hidden * 4 <= self.residual,
            TextStep::Normalize { layer, second, tokens, hidden } => {
                &&& tokens * hidden * 4 <= self.residual
                &&& tokens * hidden * 2 <= self.normalized
            },
            TextStep::Linear { part, layer, step } => {
                &&& tensors.layer_of(layer_name(layer, part.letters())) matches Some(weight)
                &&& model::stays_inside(
                    step,
                    weight,
                    (model::LinearBuffers {
                        input: self.buffers_of(part).0,
                        output: self.buffers_of(part).1,
                        quantized: self.quantized,
                        scales: self.scales,
                        adapter: 0,
                    }),
                )
            },
            TextStep::QkNormRope { layer, pairs, tokens, query_heads, key_heads } => tokens * ((query_heads + 2
                * key_heads) * HEAD_DIM) * 2 <= self.qkv,
            TextStep::Attend { tokens, heads, key, value } => {
                &&& heads * HEAD_DIM <= key
                &&& key + config.key_value_heads * HEAD_DIM <= value
                &&& value + config.key_value_heads * HEAD_DIM <= config.qkv()
                &&& tokens * config.qkv() * 2 <= self.qkv
                &&& tokens * (heads * HEAD_DIM) * 2 <= self.attention
            },
            TextStep::AddResidual { tokens, hidden } => {
                &&& tokens * hidden * 4 <= self.residual
                &&& tokens * hidden * 2 <= self.delta
            },
            TextStep::SwiGlu { tokens, ffn } => {
                &&& tokens * (2 * ffn) * 2 <= self.expanded
                &&& tokens * ffn * 2 <= self.activated
            },
            TextStep::Capture { layer } => true,
        }
    }
}

/// Whether the layers of an encoder have the shapes of its configuration, in INT8 or BF16.
pub open spec fn is_matched(tensors: DeviceTensors, config: TextEncoderConfig) -> bool {
    forall|part: TextPart, layer: usize|
        (#[trigger] tensors.layer_of(layer_name(layer, part.letters()))) matches Some(weight) ==> {
            &&& weight.outputs == part_shape(config, part).0
            &&& weight.features == part_shape(config, part).1
            &&& weight.dtype != DType::F32
        }
}

spec fn plan_holds(
    workspace: TextWorkspace,
    tensors: DeviceTensors,
    config: TextEncoderConfig,
    plan: TextPlan,
) -> bool {
    plan matches Ok(steps) ==> forall|i: int|
        0 <= i < steps.len() ==> workspace.holds(tensors, config, #[trigger] steps[i])
}

proof fn both_hold(
    workspace: TextWorkspace,
    tensors: DeviceTensors,
    config: TextEncoderConfig,
    one: TextPlan,
    other: TextPlan,
)
    requires
        plan_holds(workspace, tensors, config, one),
        plan_holds(workspace, tensors, config, other),
    ensures
        plan_holds(workspace, tensors, config, plan::both(one, other)),
{
    if let (Ok(first), Ok(second)) = (one, other) {
        let all = first + second;
        assert forall|i: int| 0 <= i < all.len() implies workspace.holds(tensors, config, #[trigger] all[i]) by {
            if i < first.len() {
                assert(all[i] == first[i]);
            } else {
                assert(all[i] == second[i - first.len()]);
            }
        }
    }
}

proof fn a_layer_holds(
    workspace: TextWorkspace,
    tensors: DeviceTensors,
    config: TextEncoderConfig,
    part: TextPart,
    layer: usize,
    tokens: usize,
)
    requires
        workspace.sized(config, tokens as int),
        is_matched(tensors, config),
    ensures
        plan_holds(workspace, tensors, config, linear_plan(tensors, part, layer, tokens)),
{
    reveal(linear_plan);
    let name = layer_name(layer, part.letters());
    let found = tensors.layer_of(name);
    if let Ok(list) = model::linear_steps(name, found, tokens, None) {
        assert(found is Some);
        let steps = launches(part, layer, list);
        assert forall|i: int| 0 <= i < steps.len() implies workspace.holds(tensors, config, #[trigger] steps[i]) by {
            a_layer_stays_in_its_workspace(config, workspace, name, found->0, part, tokens, i);
        }
    }
}

proof fn attention_holds(
    workspace: TextWorkspace,
    tensors: DeviceTensors,
    config: TextEncoderConfig,
    tokens: usize,
    layer: usize,
)
    requires
        workspace.sized(config, tokens as int),
        is_matched(tensors, config),
        config.qkv() <= usize::MAX,
    ensures
        plan_holds(workspace, tensors, config, attention_plan(tensors, config, tokens, layer)),
{
    reveal(attention_plan);
    a_layer_holds(workspace, tensors, config, TextPart::Qkv, layer, tokens);
    a_layer_holds(workspace, tensors, config, TextPart::Out, layer, tokens);
    let key = config.query_heads * HEAD_DIM;
    let norm = reading(
        tensors,
        layer_name(layer, ".input_layernorm.weight"@),
        TextStep::Normalize { layer, second: false, tokens, hidden: config.hidden },
    );
    let rope: TextPlan = if tensors.find(layer_name(layer, ".self_attn.q_norm.weight"@)) is None {
        Err(model::missing_tensor(layer_name(layer, ".self_attn.q_norm.weight"@)))
    } else {
        reading(
            tensors,
            layer_name(layer, ".self_attn.k_norm.weight"@),
            TextStep::QkNormRope {
                layer,
                pairs: HEAD_DIM / 2,
                tokens,
                query_heads: config.query_heads,
                key_heads: config.key_value_heads,
            },
        )
    };
    let attend: TextPlan = Ok(
        seq![
            TextStep::Attend {
                tokens,
                heads: config.query_heads,
                key: key as usize,
                value: (key + config.key_value_heads * HEAD_DIM) as usize,
            },
        ],
    );
    let add: TextPlan = Ok(seq![TextStep::AddResidual { tokens, hidden: config.hidden }]);
    assert(plan_holds(workspace, tensors, config, norm));
    assert(plan_holds(workspace, tensors, config, rope));
    assert(plan_holds(workspace, tensors, config, attend));
    assert(plan_holds(workspace, tensors, config, add));
    let one = linear_plan(tensors, TextPart::Qkv, layer, tokens);
    let two = linear_plan(tensors, TextPart::Out, layer, tokens);
    both_hold(workspace, tensors, config, two, add);
    both_hold(workspace, tensors, config, attend, plan::both(two, add));
    let rest = plan::both(attend, plan::both(two, add));
    both_hold(workspace, tensors, config, rope, rest);
    both_hold(workspace, tensors, config, one, plan::both(rope, rest));
    both_hold(workspace, tensors, config, norm, plan::both(one, plan::both(rope, rest)));
}

proof fn mlp_holds(
    workspace: TextWorkspace,
    tensors: DeviceTensors,
    config: TextEncoderConfig,
    tokens: usize,
    layer: usize,
)
    requires
        workspace.sized(config, tokens as int),
        is_matched(tensors, config),
    ensures
        plan_holds(workspace, tensors, config, mlp_plan(tensors, config, tokens, layer)),
{
    reveal(mlp_plan);
    a_layer_holds(workspace, tensors, config, TextPart::GateUp, layer, tokens);
    a_layer_holds(workspace, tensors, config, TextPart::Down, layer, tokens);
    let norm = reading(
        tensors,
        layer_name(layer, ".post_attention_layernorm.weight"@),
        TextStep::Normalize { layer, second: true, tokens, hidden: config.hidden },
    );
    let swiglu: TextPlan = Ok(seq![TextStep::SwiGlu { tokens, ffn: config.ffn }]);
    let add: TextPlan = Ok(seq![TextStep::AddResidual { tokens, hidden: config.hidden }]);
    assert(plan_holds(workspace, tensors, config, norm));
    assert(plan_holds(workspace, tensors, config, swiglu));
    assert(plan_holds(workspace, tensors, config, add));
    let one = linear_plan(tensors, TextPart::GateUp, layer, tokens);
    let two = linear_plan(tensors, TextPart::Down, layer, tokens);
    both_hold(workspace, tensors, config, two, add);
    both_hold(workspace, tensors, config, swiglu, plan::both(two, add));
    both_hold(workspace, tensors, config, one, plan::both(swiglu, plan::both(two, add)));
    both_hold(workspace, tensors, config, norm, plan::both(one, plan::both(swiglu, plan::both(two, add))));
}

proof fn layers_hold(
    workspace: TextWorkspace,
    tensors: DeviceTensors,
    config: TextEncoderConfig,
    tokens: usize,
    capture: Seq<usize>,
    count: int,
)
    requires
        workspace.sized(config, tokens as int),
        is_matched(tensors, config),
        config.qkv() <= usize::MAX,
    ensures
        plan_holds(workspace, tensors, config, layers_plan(tensors, config, tokens, capture, count)),
    decreases count,
{
    if count > 0 {
        let layer = (count - 1) as usize;
        layers_hold(workspace, tensors, config, tokens, capture, count - 1);
        attention_holds(workspace, tensors, config, tokens, layer);
        mlp_holds(workspace, tensors, config, tokens, layer);
        let before = layers_plan(tensors, config, tokens, capture, count - 1);
        let attention = attention_plan(tensors, config, tokens, layer);
        let mlp = mlp_plan(tensors, config, tokens, layer);
        let captured = plan::when(capture.contains(layer), Ok(seq![TextStep::Capture { layer }]));
        assert(plan_holds(workspace, tensors, config, captured));
        both_hold(workspace, tensors, config, mlp, captured);
        both_hold(workspace, tensors, config, attention, plan::both(mlp, captured));
        both_hold(workspace, tensors, config, before, plan::both(attention, plan::both(mlp, captured)));
    }
}

/// Every launch for a prompt stays inside the buffers of the prompt.
pub proof fn a_prompt_stays_in_its_workspace(
    workspace: TextWorkspace,
    tensors: DeviceTensors,
    config: TextEncoderConfig,
    ids: Seq<u32>,
    capture: Seq<usize>,
    step: int,
)
    requires
        ids.len() <= usize::MAX,
        workspace.sized(config, ids.len() as int),
        is_matched(tensors, config),
        config.qkv() <= usize::MAX,
        encode_plan(tensors, config, ids, capture) is Ok,
        0 <= step < encode_plan(tensors, config, ids, capture)->Ok_0.len(),
    ensures
        workspace.holds(tensors, config, encode_plan(tensors, config, ids, capture)->Ok_0[step]),
{
    let tokens = ids.len() as usize;
    layers_hold(workspace, tensors, config, tokens, capture, config.layers as int);
    let embed = reading(tensors, "embed_tokens.weight"@, TextStep::Embed { tokens, hidden: config.hidden });
    assert(plan_holds(workspace, tensors, config, embed));
    both_hold(
        workspace,
        tensors,
        config,
        embed,
        layers_plan(tensors, config, tokens, capture, config.layers as int),
    );
}

} // verus!
