//! What the launches of a batch of tiles compute: the buffers of the video decoder as values, and the decoder as a
//! formula.
use crate::model;
use crate::model::{DType, DeviceTensors};
use crate::plan;
use crate::vae;
use crate::vae::{TileBatch, VaeLayer, VaeNorm, VaePlan, VaeStep, VideoDecoderConfig};
use crate::value::Value;
use vstd::prelude::*;

verus! {

/// The operations of the decoder's kernels.
#[allow(inconsistent_fields)]
pub enum VaeOp {
    /// The embedded latent rows.
    Embed { tokens: usize, dim: usize, channels: usize },
    /// The embedded patches with the register tokens behind them.
    EmbedSuffix { tiles: usize, tile_tokens: usize, patches: usize, registers: usize, dim: usize },
    Normalize { norm: VaeNorm, tokens: usize, dim: usize },
    Half { layer: VaeLayer, rows: usize, outputs: usize, features: usize },
    Rotated { rows: usize, features: usize },
    Int8 { layer: VaeLayer, rows: usize, outputs: usize, features: usize, swiglu: bool },
    QkNormRope { pairs: usize, tile_tokens: usize, tokens: usize, heads: usize },
    Attend { tile_tokens: usize, heads: usize, tiles: usize },
    /// Rows scaled by the first vector of a block or by the second.
    Scaled { layer: usize, second: bool, tokens: usize, dim: usize },
    SwiGlu { tokens: usize, ffn: usize },
}

/// What a buffer of a batch holds.
pub type Held = Value<VaeOp>;

/// What the buffers of a batch hold.
pub struct Tiles {
    pub residual: Held,
    pub normalized: Held,
    pub qkv: Held,
    pub attention: Held,
    pub delta: Held,
    pub expanded: Held,
    pub activated: Held,
    pub quantized: Held,
    pub projected: Held,
}

impl Tiles {
    /// What a layer reads.
    pub open spec fn input(self, layer: VaeLayer) -> Held {
        match layer {
            VaeLayer::Qkv(_) | VaeLayer::W1(_) | VaeLayer::Project => self.normalized,
            VaeLayer::Out(_) => self.attention,
            VaeLayer::W2(_) => self.activated,
        }
    }

    /// What is held once a layer has written, gates and up projections where their product is not taken on the way.
    pub open spec fn with_output(self, layer: VaeLayer, swiglu: bool, value: Held) -> Tiles {
        if swiglu {
            Tiles { activated: value, ..self }
        } else {
            match layer {
                VaeLayer::Qkv(_) => Tiles { qkv: value, ..self },
                VaeLayer::Out(_) | VaeLayer::W2(_) => Tiles { delta: value, ..self },
                VaeLayer::W1(_) => Tiles { expanded: value, ..self },
                VaeLayer::Project => Tiles { projected: value, ..self },
            }
        }
    }

    /// What the buffers hold behind a launch.
    pub open spec fn after(self, step: VaeStep) -> Tiles {
        match step {
            VaeStep::Embed { tokens, dim, channels } => Tiles {
                normalized: Value::given(VaeOp::Embed { tokens, dim, channels }),
                ..self
            },
            VaeStep::EmbedSuffix { tiles, tile_tokens, patches, registers, dim } => Tiles {
                residual: Value::of(
                    VaeOp::EmbedSuffix { tiles, tile_tokens, patches, registers, dim },
                    self.normalized,
                ),
                ..self
            },
            VaeStep::Normalize { norm, tokens, dim } => Tiles {
                normalized: Value::of(VaeOp::Normalize { norm, tokens, dim }, self.residual),
                ..self
            },
            VaeStep::Half { layer, rows, outputs, features } => self.with_output(
                layer,
                false,
                Value::of(VaeOp::Half { layer, rows, outputs, features }, self.input(layer)),
            ),
            VaeStep::RotateQuantize { layer, rows, features } => Tiles {
                quantized: Value::of(VaeOp::Rotated { rows, features }, self.input(layer)),
                ..self
            },
            VaeStep::Int8 { layer, config, rows, outputs, features, swiglu } => self.with_output(
                layer,
                swiglu,
                Value::of(VaeOp::Int8 { layer, rows, outputs, features, swiglu }, self.quantized),
            ),
            VaeStep::QkNormRope { pairs, tile_tokens, tokens, heads } => Tiles {
                qkv: Value::of(VaeOp::QkNormRope { pairs, tile_tokens, tokens, heads }, self.qkv),
                ..self
            },
            VaeStep::Attend { tile_tokens, heads, tiles } => Tiles {
                attention: Value::of(VaeOp::Attend { tile_tokens, heads, tiles }, self.qkv),
                ..self
            },
            VaeStep::AddScaled { layer, second, tokens, dim } => Tiles {
                residual: self.residual.plus(Value::of(VaeOp::Scaled { layer, second, tokens, dim }, self.delta)),
                ..self
            },
            VaeStep::SwiGlu { tokens, ffn } => Tiles {
                activated: Value::of(VaeOp::SwiGlu { tokens, ffn }, self.expanded),
                ..self
            },
        }
    }

    /// What the buffers hold behind launches.
    pub open spec fn behind(self, steps: Seq<VaeStep>) -> Tiles
        decreases steps.len(),
    {
        if steps.len() == 0 {
            self
        } else {
            self.behind(steps.drop_last()).after(steps.last())
        }
    }
}

/// A linear layer of the decoder on a value, an INT8 one on the rotated rows.
pub open spec fn projected(tensors: DeviceTensors, which: VaeLayer, rows: usize, swiglu: bool, value: Held) -> Held {
    let layer = tensors.layer_of(which.letters())->0;
    let (outputs, features) = (layer.outputs, layer.features);
    if layer.dtype == DType::I8 {
        Value::of(
            VaeOp::Int8 { layer: which, rows, outputs, features, swiglu },
            Value::of(VaeOp::Rotated { rows, features }, value),
        )
    } else {
        Value::of(VaeOp::Half { layer: which, rows, outputs, features }, value)
    }
}

/// The attention of a block within each tile, projected back.
pub open spec fn attended(
    tensors: DeviceTensors,
    config: VideoDecoderConfig,
    batch: TileBatch,
    layer: usize,
    states: Held,
) -> Held {
    let tokens = batch.tokens;
    let qkv = projected(
        tensors,
        VaeLayer::Qkv(layer),
        tokens,
        false,
        Value::of(VaeOp::Normalize { norm: VaeNorm::First(layer), tokens, dim: config.dim }, states),
    );
    let heads = Value::of(
        VaeOp::QkNormRope {
            pairs: (3 * vae::ROPE_FREQUENCIES) as usize,
            tile_tokens: batch.tile_tokens,
            tokens,
            heads: config.heads,
        },
        qkv,
    );
    projected(
        tensors,
        VaeLayer::Out(layer),
        tokens,
        false,
        Value::of(
            VaeOp::Attend { tile_tokens: batch.tile_tokens, heads: config.heads, tiles: batch.tiles },
            heads,
        ),
    )
}

/// The MLP of a block. An INT8 first layer takes the product of the gates and the up projections on the way.
pub open spec fn mlp_of(
    tensors: DeviceTensors,
    config: VideoDecoderConfig,
    tokens: usize,
    layer: usize,
    states: Held,
) -> Held {
    let up = VaeLayer::W1(layer);
    let normalized = Value::of(VaeOp::Normalize { norm: VaeNorm::Second(layer), tokens, dim: config.dim }, states);
    let activated = if vae::is_int8(tensors, up) {
        projected(tensors, up, tokens, true, normalized)
    } else {
        Value::of(VaeOp::SwiGlu { tokens, ffn: config.ffn }, projected(tensors, up, tokens, false, normalized))
    };
    projected(tensors, VaeLayer::W2(layer), tokens, false, activated)
}

/// The states behind the first `count` blocks: the embedded patches with their registers, and on top of them each
/// block's attention scaled by its first vector, and then its MLP scaled by its second.
pub open spec fn states(tensors: DeviceTensors, config: VideoDecoderConfig, batch: TileBatch, count: int) -> Held
    decreases count,
{
    let (tokens, dim) = (batch.tokens, config.dim);
    if count <= 0 {
        Value::of(
            VaeOp::EmbedSuffix {
                tiles: batch.tiles,
                tile_tokens: batch.tile_tokens,
                patches: batch.patches,
                registers: config.registers,
                dim,
            },
            Value::given(VaeOp::Embed { tokens, dim, channels: config.latent_channels }),
        )
    } else {
        let layer = (count - 1) as usize;
        let before = states(tensors, config, batch, count - 1);
        let middle = before.plus(
            Value::of(
                VaeOp::Scaled { layer, second: false, tokens, dim },
                attended(tensors, config, batch, layer, before),
            ),
        );
        middle.plus(
            Value::of(
                VaeOp::Scaled { layer, second: true, tokens, dim },
                mlp_of(tensors, config, tokens, layer, middle),
            ),
        )
    }
}

/// The patch features of a batch.
pub open spec fn features(tensors: DeviceTensors, config: VideoDecoderConfig, batch: TileBatch) -> Held {
    projected(
        tensors,
        VaeLayer::Project,
        batch.tokens,
        false,
        Value::of(
            VaeOp::Normalize { norm: VaeNorm::Out, tokens: batch.tokens, dim: config.dim },
            states(tensors, config, batch, config.layers as int),
        ),
    )
}

proof fn behind_both(tiles: Tiles, one: Seq<VaeStep>, other: Seq<VaeStep>)
    ensures
        tiles.behind(one + other) == tiles.behind(one).behind(other),
    decreases other.len(),
{
    if other.len() == 0 {
        assert(one + other =~= one);
    } else {
        behind_both(tiles, one, other.drop_last());
        assert((one + other).drop_last() =~= one + other.drop_last());
    }
}

proof fn behind_one(tiles: Tiles, one: VaeStep)
    ensures
        tiles.behind(seq![one]) == tiles.after(one),
{
    reveal_with_fuel(Tiles::behind, 2);
    assert(seq![one].drop_last() =~= Seq::empty());
}

proof fn behind_two(tiles: Tiles, one: VaeStep, two: VaeStep)
    ensures
        tiles.behind(seq![one, two]) == tiles.after(one).after(two),
{
    behind_one(tiles, one);
    assert(seq![one, two].drop_last() =~= seq![one]);
}

proof fn behind_plans(tiles: Tiles, one: VaePlan, other: VaePlan)
    requires
        plan::both(one, other) is Ok,
    ensures
        one is Ok,
        other is Ok,
        tiles.behind(plan::both(one, other)->Ok_0) == tiles.behind(one->Ok_0).behind(other->Ok_0),
{
    behind_both(tiles, one->Ok_0, other->Ok_0);
}

proof fn a_layer_flows(tiles: Tiles, tensors: DeviceTensors, which: VaeLayer, rows: usize, swiglu: bool)
    requires
        vae::linear_plan(tensors, which, rows, swiglu) is Ok,
    ensures
        ({
            let then = tiles.behind(vae::linear_plan(tensors, which, rows, swiglu)->Ok_0);
            let value = projected(tensors, which, rows, swiglu, tiles.input(which));
            then == (Tiles { quantized: then.quantized, ..tiles }).with_output(
                which,
                swiglu && vae::is_int8(tensors, which),
                value,
            )
        }),
{
    reveal(vae::linear_plan);
    let list = vae::linear_plan(tensors, which, rows, swiglu)->Ok_0;
    if list.len() == 1 {
        assert(list =~= seq![list[0]]);
        behind_one(tiles, list[0]);
    } else {
        assert(list =~= seq![list[0], list[1]]);
        behind_two(tiles, list[0], list[1]);
    }
}

proof fn attention_flows(
    tiles: Tiles,
    tensors: DeviceTensors,
    config: VideoDecoderConfig,
    batch: TileBatch,
    layer: usize,
)
    requires
        vae::attention_plan(tensors, config, batch, layer) is Ok,
    ensures
        tiles.behind(vae::attention_plan(tensors, config, batch, layer)->Ok_0).residual == tiles.residual.plus(
            Value::of(
                VaeOp::Scaled { layer, second: false, tokens: batch.tokens, dim: config.dim },
                attended(tensors, config, batch, layer, tiles.residual),
            ),
        ),
{
    reveal(vae::attention_plan);
    let tokens = batch.tokens;
    let normalize = VaeStep::Normalize { norm: VaeNorm::First(layer), tokens, dim: config.dim };
    let rotate = VaeStep::QkNormRope {
        pairs: (3 * vae::ROPE_FREQUENCIES) as usize,
        tile_tokens: batch.tile_tokens,
        tokens,
        heads: config.heads,
    };
    let attend = VaeStep::Attend { tile_tokens: batch.tile_tokens, heads: config.heads, tiles: batch.tiles };
    let add = VaeStep::AddScaled { layer, second: false, tokens, dim: config.dim };
    let five = vae::reading(tensors, vae::block_name(layer, ".scale1"@), add);
    let out = vae::linear_plan(tensors, VaeLayer::Out(layer), tokens, false);
    let four = plan::both(out, five);
    let three = plan::both(Ok(seq![rotate, attend]), four);
    let qkv = vae::linear_plan(tensors, VaeLayer::Qkv(layer), tokens, false);
    let two = plan::both(qkv, three);
    let first = vae::reading(tensors, vae::block_name(layer, ".norm1.weight"@), normalize);
    assert(vae::attention_plan(tensors, config, batch, layer) == plan::both(first, two));
    behind_plans(tiles, first, two);
    behind_one(tiles, normalize);
    let normalized = tiles.after(normalize);
    behind_plans(normalized, qkv, three);
    a_layer_flows(normalized, tensors, VaeLayer::Qkv(layer), tokens, false);
    let wide = normalized.behind(qkv->Ok_0);
    behind_plans(wide, Ok(seq![rotate, attend]), four);
    behind_two(wide, rotate, attend);
    let attention = wide.after(rotate).after(attend);
    behind_plans(attention, out, five);
    a_layer_flows(attention, tensors, VaeLayer::Out(layer), tokens, false);
    behind_one(attention.behind(out->Ok_0), add);
}

proof fn mlp_flows(tiles: Tiles, tensors: DeviceTensors, config: VideoDecoderConfig, tokens: usize, layer: usize)
    requires
        vae::mlp_plan(tensors, config, tokens, layer) is Ok,
    ensures
        tiles.behind(vae::mlp_plan(tensors, config, tokens, layer)->Ok_0).residual == tiles.residual.plus(
            Value::of(
                VaeOp::Scaled { layer, second: true, tokens, dim: config.dim },
                mlp_of(tensors, config, tokens, layer, tiles.residual),
            ),
        ),
{
    reveal(vae::mlp_plan);
    let up = VaeLayer::W1(layer);
    let normalize = VaeStep::Normalize { norm: VaeNorm::Second(layer), tokens, dim: config.dim };
    let swiglu = VaeStep::SwiGlu { tokens, ffn: config.ffn };
    let add = VaeStep::AddScaled { layer, second: true, tokens, dim: config.dim };
    let four = vae::reading(tensors, vae::block_name(layer, ".scale2"@), add);
    let down = vae::linear_plan(tensors, VaeLayer::W2(layer), tokens, false);
    let three = plan::both(down, four);
    let wide = vae::linear_plan(tensors, up, tokens, false);
    let middle: VaePlan = if vae::is_int8(tensors, up) {
        vae::linear_plan(tensors, up, tokens, true)
    } else {
        plan::both(wide, Ok(seq![swiglu]))
    };
    let two = plan::both(middle, three);
    let first = vae::reading(tensors, vae::block_name(layer, ".norm2.weight"@), normalize);
    assert(vae::mlp_plan(tensors, config, tokens, layer) == plan::both(first, two));
    behind_plans(tiles, first, two);
    behind_one(tiles, normalize);
    let normalized = tiles.after(normalize);
    behind_plans(normalized, middle, three);
    if vae::is_int8(tensors, up) {
        a_layer_flows(normalized, tensors, up, tokens, true);
    } else {
        behind_plans(normalized, wide, Ok(seq![swiglu]));
        a_layer_flows(normalized, tensors, up, tokens, false);
        behind_one(normalized.behind(wide->Ok_0), swiglu);
    }
    let activated = normalized.behind(middle->Ok_0);
    behind_plans(activated, down, four);
    a_layer_flows(activated, tensors, VaeLayer::W2(layer), tokens, false);
    behind_one(activated.behind(down->Ok_0), add);
}

proof fn blocks_flow(tiles: Tiles, tensors: DeviceTensors, config: VideoDecoderConfig, batch: TileBatch, count: int)
    requires
        0 <= count,
        vae::blocks_plan(tensors, config, batch, count) is Ok,
        tiles.residual == states(tensors, config, batch, 0),
    ensures
        tiles.behind(vae::blocks_plan(tensors, config, batch, count)->Ok_0).residual == states(
            tensors,
            config,
            batch,
            count,
        ),
    decreases count,
{
    if count > 0 {
        let layer = (count - 1) as usize;
        let earlier = vae::blocks_plan(tensors, config, batch, count - 1);
        let attention = vae::attention_plan(tensors, config, batch, layer);
        let mlp = vae::mlp_plan(tensors, config, batch.tokens, layer);
        behind_plans(tiles, earlier, plan::both(attention, mlp));
        blocks_flow(tiles, tensors, config, batch, count - 1);
        let before = tiles.behind(earlier->Ok_0);
        behind_plans(before, attention, mlp);
        attention_flows(before, tensors, config, batch, layer);
        mlp_flows(before.behind(attention->Ok_0), tensors, config, batch.tokens, layer);
    }
}

/// Whatever the buffers held before, the launches of a batch of tiles leave its patch features: each block adds its
/// attention and its MLP once, scaled by its two vectors in turn, the MLP of what already has the attention, and
/// nothing else writes the states.
pub proof fn a_batch_is_decoded(tiles: Tiles, tensors: DeviceTensors, config: VideoDecoderConfig, batch: TileBatch)
    requires
        vae::tiles_plan(tensors, config, batch) is Ok,
    ensures
        ({
            let then = tiles.behind(vae::tiles_plan(tensors, config, batch)->Ok_0);
            &&& then.residual == states(tensors, config, batch, config.layers as int)
            &&& then.projected == features(tensors, config, batch)
        }),
{
    let embed = VaeStep::Embed { tokens: batch.tokens, dim: config.dim, channels: config.latent_channels };
    let suffix = VaeStep::EmbedSuffix {
        tiles: batch.tiles,
        tile_tokens: batch.tile_tokens,
        patches: batch.patches,
        registers: config.registers,
        dim: config.dim,
    };
    let normalize = VaeStep::Normalize { norm: VaeNorm::Out, tokens: batch.tokens, dim: config.dim };
    let first: VaePlan = Ok(seq![embed]);
    let second = vae::reading(tensors, "register_tokens"@, suffix);
    let blocks = vae::blocks_plan(tensors, config, batch, config.layers as int);
    let norm: VaePlan = if tensors.find("norm_out.bias"@) is None {
        Err(model::missing_tensor("norm_out.bias"@))
    } else {
        vae::reading(tensors, "norm_out.weight"@, normalize)
    };
    let project = vae::linear_plan(tensors, VaeLayer::Project, batch.tokens, false);
    assert(vae::tiles_plan(tensors, config, batch) == plan::both(
        plan::both(first, second),
        plan::both(blocks, plan::both(norm, project)),
    ));
    behind_plans(tiles, plan::both(first, second), plan::both(blocks, plan::both(norm, project)));
    behind_plans(tiles, first, second);
    behind_one(tiles, embed);
    behind_one(tiles.after(embed), suffix);
    let begun = tiles.after(embed).after(suffix);
    behind_plans(begun, blocks, plan::both(norm, project));
    blocks_flow(begun, tensors, config, batch, config.layers as int);
    let whole = begun.behind(blocks->Ok_0);
    behind_plans(whole, norm, project);
    behind_one(whole, normalize);
    a_layer_flows(whole.after(normalize), tensors, VaeLayer::Project, batch.tokens, false);
}

} // verus!
