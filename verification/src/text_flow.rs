//! What the launches of a prompt compute: the buffers of the text encoder as values, and the encoder as a formula.
use crate::attention::HEAD_DIM;
use crate::linear_flow;
use crate::linear_flow::{LinearHeld, LinearOp};
use crate::model::{DeviceTensors, LinearStep};
use crate::plan;
use crate::text_encoder;
use crate::text_encoder::{TextEncoderConfig, TextPart, TextPlan, TextStep};
use crate::value::Value;
use vstd::prelude::*;

verus! {

/// The operations of the encoder's kernels.
#[allow(inconsistent_fields)]
pub enum TextOp {
    /// The embeddings of the token ids.
    Embed { tokens: usize, hidden: usize },
    Normalize { layer: usize, second: bool, tokens: usize, hidden: usize },
    Linear { part: TextPart, layer: usize, op: LinearOp },
    /// Normalized and rotated q and k, with v.
    QkNormRope { layer: usize, pairs: usize, tokens: usize, query_heads: usize, key_heads: usize },
    Attend { tokens: usize, heads: usize, key: usize, value: usize },
    SwiGlu { tokens: usize, ffn: usize },
    /// So many rows of so many values.
    Rows { tokens: usize, hidden: usize },
}

/// What a buffer of a prompt holds.
pub type Held = Value<TextOp>;

/// What the buffers of a prompt hold, and the hidden states that were taken, each with its layer.
pub struct Prompt {
    pub residual: Held,
    pub normalized: Held,
    pub qkv: Held,
    pub attention: Held,
    pub delta: Held,
    pub expanded: Held,
    pub activated: Held,
    pub quantized: Held,
    pub scratch: Held,
    pub taken: Seq<(usize, Held)>,
}

pub open spec fn op_of(part: TextPart, layer: usize) -> spec_fn(LinearOp) -> TextOp {
    |op: LinearOp| TextOp::Linear { part, layer, op }
}

impl Prompt {
    /// What a layer reads.
    pub open spec fn input(self, part: TextPart) -> Held {
        match part {
            TextPart::Qkv | TextPart::GateUp => self.normalized,
            TextPart::Out => self.attention,
            TextPart::Down => self.activated,
        }
    }

    /// The buffers of a layer.
    pub open spec fn linear(self, part: TextPart) -> LinearHeld<TextOp> {
        LinearHeld {
            quantized: self.quantized,
            scratch: self.scratch,
            output: match part {
                TextPart::Qkv => self.qkv,
                TextPart::GateUp => self.expanded,
                TextPart::Out | TextPart::Down => self.delta,
            },
        }
    }

    pub open spec fn with_linear(self, part: TextPart, held: LinearHeld<TextOp>) -> Prompt {
        let with = Prompt { quantized: held.quantized, scratch: held.scratch, ..self };
        match part {
            TextPart::Qkv => Prompt { qkv: held.output, ..with },
            TextPart::GateUp => Prompt { expanded: held.output, ..with },
            TextPart::Out | TextPart::Down => Prompt { delta: held.output, ..with },
        }
    }

    /// What the buffers hold behind a launch.
    pub open spec fn after(self, step: TextStep) -> Prompt {
        match step {
            TextStep::Embed { tokens, hidden } => Prompt {
                residual: Value::given(TextOp::Embed { tokens, hidden }),
                ..self
            },
            TextStep::Normalize { layer, second, tokens, hidden } => Prompt {
                normalized: Value::of(TextOp::Normalize { layer, second, tokens, hidden }, self.residual),
                ..self
            },
            TextStep::Linear { part, layer, step } => self.with_linear(
                part,
                self.linear(part).after(op_of(part, layer), self.input(part), step),
            ),
            TextStep::QkNormRope { layer, pairs, tokens, query_heads, key_heads } => Prompt {
                qkv: Value::of(TextOp::QkNormRope { layer, pairs, tokens, query_heads, key_heads }, self.qkv),
                ..self
            },
            TextStep::Attend { tokens, heads, key, value } => Prompt {
                attention: Value::of(TextOp::Attend { tokens, heads, key, value }, self.qkv),
                ..self
            },
            TextStep::AddResidual { tokens, hidden } => Prompt {
                residual: self.residual.plus(Value::of(TextOp::Rows { tokens, hidden }, self.delta)),
                ..self
            },
            TextStep::SwiGlu { tokens, ffn } => Prompt {
                activated: Value::of(TextOp::SwiGlu { tokens, ffn }, self.expanded),
                ..self
            },
            TextStep::Capture { layer } => Prompt { taken: self.taken.push((layer, self.residual)), ..self },
        }
    }

    /// What the buffers hold behind launches.
    pub open spec fn behind(self, steps: Seq<TextStep>) -> Prompt
        decreases steps.len(),
    {
        if steps.len() == 0 {
            self
        } else {
            self.behind(steps.drop_last()).after(steps.last())
        }
    }
}

/// A linear layer of the encoder on a value.
pub open spec fn projected(tensors: DeviceTensors, part: TextPart, layer: usize, tokens: usize, value: Held) -> Held {
    linear_flow::layer_value(
        op_of(part, layer),
        tensors.layer_of(text_encoder::layer_name(layer, part.letters()))->0,
        tokens,
        None,
        value,
    )
}

/// The attention of a layer: causal attention of its normalized and rotated heads, projected back.
pub open spec fn attended(
    tensors: DeviceTensors,
    config: TextEncoderConfig,
    tokens: usize,
    layer: usize,
    states: Held,
) -> Held {
    let qkv = projected(
        tensors,
        TextPart::Qkv,
        layer,
        tokens,
        Value::of(TextOp::Normalize { layer, second: false, tokens, hidden: config.hidden }, states),
    );
    let heads = Value::of(
        TextOp::QkNormRope {
            layer,
            pairs: HEAD_DIM / 2,
            tokens,
            query_heads: config.query_heads,
            key_heads: config.key_value_heads,
        },
        qkv,
    );
    let attention = Value::of(
        TextOp::Attend {
            tokens,
            heads: config.query_heads,
            key: (config.query_heads * HEAD_DIM) as usize,
            value: ((config.query_heads + config.key_value_heads) * HEAD_DIM) as usize,
        },
        heads,
    );
    projected(tensors, TextPart::Out, layer, tokens, attention)
}

/// The MLP of a layer.
pub open spec fn mlp_of(
    tensors: DeviceTensors,
    config: TextEncoderConfig,
    tokens: usize,
    layer: usize,
    states: Held,
) -> Held {
    let expanded = projected(
        tensors,
        TextPart::GateUp,
        layer,
        tokens,
        Value::of(TextOp::Normalize { layer, second: true, tokens, hidden: config.hidden }, states),
    );
    projected(
        tensors,
        TextPart::Down,
        layer,
        tokens,
        Value::of(TextOp::SwiGlu { tokens, ffn: config.ffn }, expanded),
    )
}

/// The hidden states behind the first `count` layers: the embeddings, and on top of them each layer's attention and
/// then its MLP.
pub open spec fn hidden_states(tensors: DeviceTensors, config: TextEncoderConfig, tokens: usize, count: int) -> Held
    decreases count,
{
    let rows = TextOp::Rows { tokens, hidden: config.hidden };
    if count <= 0 {
        Value::given(TextOp::Embed { tokens, hidden: config.hidden })
    } else {
        let states = hidden_states(tensors, config, tokens, count - 1);
        let layer = (count - 1) as usize;
        let middle = states.plus(Value::of(rows, attended(tensors, config, tokens, layer, states)));
        middle.plus(Value::of(rows, mlp_of(tensors, config, tokens, layer, middle)))
    }
}

/// The hidden states that are taken behind the first `count` layers.
pub open spec fn taken_states(
    tensors: DeviceTensors,
    config: TextEncoderConfig,
    tokens: usize,
    capture: Seq<usize>,
    count: int,
) -> Seq<(usize, Held)>
    decreases count,
{
    if count <= 0 {
        Seq::empty()
    } else {
        let layer = (count - 1) as usize;
        let earlier = taken_states(tensors, config, tokens, capture, count - 1);
        if capture.contains(layer) {
            earlier.push((layer, hidden_states(tensors, config, tokens, count)))
        } else {
            earlier
        }
    }
}

proof fn behind_both(prompt: Prompt, one: Seq<TextStep>, other: Seq<TextStep>)
    ensures
        prompt.behind(one + other) == prompt.behind(one).behind(other),
    decreases other.len(),
{
    if other.len() == 0 {
        assert(one + other =~= one);
    } else {
        behind_both(prompt, one, other.drop_last());
        assert((one + other).drop_last() =~= one + other.drop_last());
    }
}

proof fn behind_one(prompt: Prompt, one: TextStep)
    ensures
        prompt.behind(seq![one]) == prompt.after(one),
{
    reveal_with_fuel(Prompt::behind, 2);
    assert(seq![one].drop_last() =~= Seq::empty());
}

proof fn behind_plans(prompt: Prompt, one: TextPlan, other: TextPlan)
    requires
        plan::both(one, other) is Ok,
    ensures
        one is Ok,
        other is Ok,
        prompt.behind(plan::both(one, other)->Ok_0) == prompt.behind(one->Ok_0).behind(other->Ok_0),
{
    behind_both(prompt, one->Ok_0, other->Ok_0);
}

proof fn launches_flow(prompt: Prompt, part: TextPart, layer: usize, steps: Seq<LinearStep>)
    ensures
        prompt.behind(text_encoder::launches(part, layer, steps)) == prompt.with_linear(
            part,
            prompt.linear(part).behind(op_of(part, layer), prompt.input(part), steps),
        ),
    decreases steps.len(),
{
    let list = text_encoder::launches(part, layer, steps);
    if steps.len() > 0 {
        launches_flow(prompt, part, layer, steps.drop_last());
        assert(list.drop_last() =~= text_encoder::launches(part, layer, steps.drop_last()));
    }
}

proof fn a_layer_flows(prompt: Prompt, tensors: DeviceTensors, part: TextPart, layer: usize, tokens: usize)
    requires
        text_encoder::linear_plan(tensors, part, layer, tokens) is Ok,
    ensures
        ({
            let then = prompt.behind(text_encoder::linear_plan(tensors, part, layer, tokens)->Ok_0);
            &&& then.linear(part).output == projected(tensors, part, layer, tokens, prompt.input(part))
            &&& then == prompt.with_linear(part, then.linear(part))
        }),
{
    reveal(text_encoder::linear_plan);
    let name = text_encoder::layer_name(layer, part.letters());
    let steps = crate::model::linear_steps(name, tensors.layer_of(name), tokens, None)->Ok_0;
    launches_flow(prompt, part, layer, steps);
    linear_flow::a_layer_flows(
        prompt.linear(part),
        op_of(part, layer),
        prompt.input(part),
        name,
        tensors.layer_of(name),
        tokens,
        None,
    );
}

proof fn attention_flows(prompt: Prompt, tensors: DeviceTensors, config: TextEncoderConfig, tokens: usize, layer: usize)
    requires
        text_encoder::attention_plan(tensors, config, tokens, layer) is Ok,
    ensures
        ({
            let then = prompt.behind(text_encoder::attention_plan(tensors, config, tokens, layer)->Ok_0);
            &&& then.residual == prompt.residual.plus(
                Value::of(
                    TextOp::Rows { tokens, hidden: config.hidden },
                    attended(tensors, config, tokens, layer, prompt.residual),
                ),
            )
            &&& then.taken == prompt.taken
        }),
{
    reveal(text_encoder::attention_plan);
    let key = config.query_heads * HEAD_DIM;
    let normalize = TextStep::Normalize { layer, second: false, tokens, hidden: config.hidden };
    let rotate = TextStep::QkNormRope {
        layer,
        pairs: HEAD_DIM / 2,
        tokens,
        query_heads: config.query_heads,
        key_heads: config.key_value_heads,
    };
    let attend = TextStep::Attend {
        tokens,
        heads: config.query_heads,
        key: key as usize,
        value: (key + config.key_value_heads * HEAD_DIM) as usize,
    };
    let add = TextStep::AddResidual { tokens, hidden: config.hidden };
    let six: TextPlan = Ok(seq![add]);
    let five = plan::both(text_encoder::linear_plan(tensors, TextPart::Out, layer, tokens), six);
    let four = plan::both(Ok(seq![attend]), five);
    let third: TextPlan = if tensors.find(text_encoder::layer_name(layer, ".self_attn.q_norm.weight"@)) is None {
        Err(crate::model::missing_tensor(text_encoder::layer_name(layer, ".self_attn.q_norm.weight"@)))
    } else {
        text_encoder::reading(tensors, text_encoder::layer_name(layer, ".self_attn.k_norm.weight"@), rotate)
    };
    let three = plan::both(third, four);
    let two = plan::both(text_encoder::linear_plan(tensors, TextPart::Qkv, layer, tokens), three);
    let first = text_encoder::reading(
        tensors,
        text_encoder::layer_name(layer, ".input_layernorm.weight"@),
        normalize,
    );
    assert(text_encoder::attention_plan(tensors, config, tokens, layer) == plan::both(first, two));
    behind_plans(prompt, first, two);
    behind_one(prompt, normalize);
    let normalized = prompt.after(normalize);
    behind_plans(normalized, text_encoder::linear_plan(tensors, TextPart::Qkv, layer, tokens), three);
    a_layer_flows(normalized, tensors, TextPart::Qkv, layer, tokens);
    let qkv = normalized.behind(text_encoder::linear_plan(tensors, TextPart::Qkv, layer, tokens)->Ok_0);
    behind_plans(qkv, third, four);
    behind_one(qkv, rotate);
    let rotated = qkv.after(rotate);
    behind_plans(rotated, Ok(seq![attend]), five);
    behind_one(rotated, attend);
    let attention = rotated.after(attend);
    behind_plans(attention, text_encoder::linear_plan(tensors, TextPart::Out, layer, tokens), six);
    a_layer_flows(attention, tensors, TextPart::Out, layer, tokens);
    let out = attention.behind(text_encoder::linear_plan(tensors, TextPart::Out, layer, tokens)->Ok_0);
    behind_one(out, add);
    assert((config.query_heads + config.key_value_heads) * HEAD_DIM == key + config.key_value_heads * HEAD_DIM);
}

proof fn mlp_flows(prompt: Prompt, tensors: DeviceTensors, config: TextEncoderConfig, tokens: usize, layer: usize)
    requires
        text_encoder::mlp_plan(tensors, config, tokens, layer) is Ok,
    ensures
        ({
            let then = prompt.behind(text_encoder::mlp_plan(tensors, config, tokens, layer)->Ok_0);
            &&& then.residual == prompt.residual.plus(
                Value::of(
                    TextOp::Rows { tokens, hidden: config.hidden },
                    mlp_of(tensors, config, tokens, layer, prompt.residual),
                ),
            )
            &&& then.taken == prompt.taken
        }),
{
    reveal(text_encoder::mlp_plan);
    let normalize = TextStep::Normalize { layer, second: true, tokens, hidden: config.hidden };
    let swiglu = TextStep::SwiGlu { tokens, ffn: config.ffn };
    let add = TextStep::AddResidual { tokens, hidden: config.hidden };
    let five: TextPlan = Ok(seq![add]);
    let four = plan::both(text_encoder::linear_plan(tensors, TextPart::Down, layer, tokens), five);
    let three = plan::both(Ok(seq![swiglu]), four);
    let two = plan::both(text_encoder::linear_plan(tensors, TextPart::GateUp, layer, tokens), three);
    let first = text_encoder::reading(
        tensors,
        text_encoder::layer_name(layer, ".post_attention_layernorm.weight"@),
        normalize,
    );
    assert(text_encoder::mlp_plan(tensors, config, tokens, layer) == plan::both(first, two));
    behind_plans(prompt, first, two);
    behind_one(prompt, normalize);
    let normalized = prompt.after(normalize);
    behind_plans(normalized, text_encoder::linear_plan(tensors, TextPart::GateUp, layer, tokens), three);
    a_layer_flows(normalized, tensors, TextPart::GateUp, layer, tokens);
    let expanded = normalized.behind(text_encoder::linear_plan(tensors, TextPart::GateUp, layer, tokens)->Ok_0);
    behind_plans(expanded, Ok(seq![swiglu]), four);
    behind_one(expanded, swiglu);
    let activated = expanded.after(swiglu);
    behind_plans(activated, text_encoder::linear_plan(tensors, TextPart::Down, layer, tokens), five);
    a_layer_flows(activated, tensors, TextPart::Down, layer, tokens);
    let down = activated.behind(text_encoder::linear_plan(tensors, TextPart::Down, layer, tokens)->Ok_0);
    behind_one(down, add);
}

proof fn layers_flow(
    prompt: Prompt,
    tensors: DeviceTensors,
    config: TextEncoderConfig,
    tokens: usize,
    capture: Seq<usize>,
    count: int,
)
    requires
        0 <= count,
        text_encoder::layers_plan(tensors, config, tokens, capture, count) is Ok,
        prompt.residual == hidden_states(tensors, config, tokens, 0),
    ensures
        ({
            let then = prompt.behind(text_encoder::layers_plan(tensors, config, tokens, capture, count)->Ok_0);
            &&& then.residual == hidden_states(tensors, config, tokens, count)
            &&& then.taken == prompt.taken + taken_states(tensors, config, tokens, capture, count)
        }),
    decreases count,
{
    if count == 0 {
        assert(prompt.taken + Seq::empty() =~= prompt.taken);
    } else {
        let layer = (count - 1) as usize;
        let earlier = text_encoder::layers_plan(tensors, config, tokens, capture, count - 1);
        let take: TextPlan = plan::when(capture.contains(layer), Ok(seq![TextStep::Capture { layer }]));
        let mlp = text_encoder::mlp_plan(tensors, config, tokens, layer);
        let attention = text_encoder::attention_plan(tensors, config, tokens, layer);
        behind_plans(prompt, earlier, plan::both(attention, plan::both(mlp, take)));
        layers_flow(prompt, tensors, config, tokens, capture, count - 1);
        let before = prompt.behind(earlier->Ok_0);
        behind_plans(before, attention, plan::both(mlp, take));
        attention_flows(before, tensors, config, tokens, layer);
        let middle = before.behind(attention->Ok_0);
        behind_plans(middle, mlp, take);
        mlp_flows(middle, tensors, config, tokens, layer);
        let whole = middle.behind(mlp->Ok_0);
        assert(whole.residual == hidden_states(tensors, config, tokens, count));
        if capture.contains(layer) {
            behind_one(whole, TextStep::Capture { layer });
        }
        let then = whole.behind(take->Ok_0);
        assert(then.taken =~= prompt.taken + taken_states(tensors, config, tokens, capture, count));
    }
}

/// Whatever the buffers held before, the launches of a prompt leave the hidden states behind all layers in the
/// residual, and take those behind each captured layer: each layer adds its attention and its MLP once, the MLP of
/// what already has the attention, and nothing else writes the states.
pub proof fn a_prompt_is_encoded(
    prompt: Prompt,
    tensors: DeviceTensors,
    config: TextEncoderConfig,
    ids: Seq<u32>,
    capture: Seq<usize>,
)
    requires
        text_encoder::encode_plan(tensors, config, ids, capture) is Ok,
    ensures
        ({
            let tokens = ids.len() as usize;
            let then = prompt.behind(text_encoder::encode_plan(tensors, config, ids, capture)->Ok_0);
            &&& then.residual == hidden_states(tensors, config, tokens, config.layers as int)
            &&& then.taken == prompt.taken + taken_states(tensors, config, tokens, capture, config.layers as int)
        }),
{
    let tokens = ids.len() as usize;
    let embed = TextStep::Embed { tokens, hidden: config.hidden };
    let first = text_encoder::reading(tensors, "embed_tokens.weight"@, embed);
    let layers = text_encoder::layers_plan(tensors, config, tokens, capture, config.layers as int);
    behind_plans(prompt, first, layers);
    behind_one(prompt, embed);
    layers_flow(prompt.after(embed), tensors, config, tokens, capture, config.layers as int);
}

} // verus!
