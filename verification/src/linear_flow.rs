//! What the launches of a linear layer compute, on rows that are whatever they are.
use crate::model;
use crate::model::{AdapterPart, DType, Layer, LinearKind, LinearStep, LowRank};
use crate::value::Value;
use vstd::prelude::*;

verus! {

/// The operations of a linear layer's kernels.
#[allow(inconsistent_fields)]
pub enum LinearOp {
    /// The rows rotated and quantized.
    Rotated { rows: usize, features: usize },
    /// An adapter's INT8 down projection of rotated rows.
    QuantizedDown { rows: usize, columns: usize, inputs: usize },
    /// The INT8 product of rotated rows, with the adapter's of what its down projection left.
    Int8 {
        rows: usize,
        first: usize,
        outputs: usize,
        features: usize,
        stride: usize,
        swiglu: bool,
        adapter: Option<AdapterPart>,
    },
    Product { kind: LinearKind, rows: usize, outputs: usize, features: usize, bias: bool },
    /// An adapter's BF16 projections.
    Down { rows: usize, rank: usize, inputs: usize },
    Up { rows: usize, outputs: usize, rank: usize },
}

/// What the buffers of a linear layer hold.
pub struct LinearHeld<O> {
    /// The rotated rows in the quantization buffers.
    pub quantized: Value<O>,
    /// What the adapter's down projection left.
    pub scratch: Value<O>,
    pub output: Value<O>,
}

impl<O> LinearHeld<O> {
    /// What they hold behind a launch on `input`, an operation being named by `op`.
    pub open spec fn after(self, op: spec_fn(LinearOp) -> O, input: Value<O>, step: LinearStep) -> LinearHeld<O> {
        match step {
            LinearStep::RotateQuantize { rows, features } => LinearHeld {
                quantized: Value::of(op(LinearOp::Rotated { rows, features }), input),
                ..self
            },
            LinearStep::QuantizedDown { config, rows, columns, inputs } => LinearHeld {
                scratch: Value::of(op(LinearOp::QuantizedDown { rows, columns, inputs }), self.quantized),
                ..self
            },
            LinearStep::Int8 { config, rows, first, outputs, features, stride, swiglu, adapter } => {
                let by = op(LinearOp::Int8 { rows, first, outputs, features, stride, swiglu, adapter });
                LinearHeld {
                    output: if adapter is Some {
                        Value::of_both(by, self.quantized, self.scratch)
                    } else {
                        Value::of(by, self.quantized)
                    },
                    ..self
                }
            },
            LinearStep::Product { kind, rows, outputs, features, bias } => LinearHeld {
                output: Value::of(op(LinearOp::Product { kind, rows, outputs, features, bias }), input),
                ..self
            },
            LinearStep::Down { rows, rank, inputs } => LinearHeld {
                scratch: Value::of(op(LinearOp::Down { rows, rank, inputs }), input),
                ..self
            },
            LinearStep::Up { rows, outputs, rank } => LinearHeld {
                output: self.output.plus(Value::of(op(LinearOp::Up { rows, outputs, rank }), self.scratch)),
                ..self
            },
        }
    }

    /// What they hold behind launches on `input`.
    pub open spec fn behind(self, op: spec_fn(LinearOp) -> O, input: Value<O>, steps: Seq<LinearStep>) -> LinearHeld<O>
        decreases steps.len(),
    {
        if steps.len() == 0 {
            self
        } else {
            self.behind(op, input, steps.drop_last()).after(op, input, steps.last())
        }
    }
}

/// An INT8 layer on rotated rows: its product, with the adapter's on top, inside the SwiGLU where there is one.
pub open spec fn int8_value<O>(
    op: spec_fn(LinearOp) -> O,
    layer: Layer,
    rows: usize,
    adapter: Option<LowRank>,
    swiglu: bool,
    rotated: Value<O>,
) -> Value<O> {
    let part = match adapter {
        None => None,
        Some(low) => Some(AdapterPart { rank: low.rank, stride: low.columns->0 }),
    };
    let by = op(
        LinearOp::Int8 {
            rows,
            first: 0,
            outputs: layer.outputs,
            features: layer.features,
            stride: 0,
            swiglu,
            adapter: part,
        },
    );
    match adapter {
        None => Value::of(by, rotated),
        Some(low) => Value::of_both(
            by,
            rotated,
            Value::of(op(LinearOp::QuantizedDown { rows, columns: low.columns->0, inputs: low.inputs }), rotated),
        ),
    }
}

/// A layer on its input: an INT8 one on the rotated rows, another one as it is with its adapter's product added.
pub open spec fn layer_value<O>(
    op: spec_fn(LinearOp) -> O,
    layer: Layer,
    rows: usize,
    adapter: Option<LowRank>,
    input: Value<O>,
) -> Value<O> {
    if layer.dtype == DType::I8 {
        int8_value(
            op,
            layer,
            rows,
            adapter,
            false,
            Value::of(op(LinearOp::Rotated { rows, features: layer.features }), input),
        )
    } else {
        let product = Value::of(
            op(
                LinearOp::Product {
                    kind: if layer.dtype == DType::Bf16 {
                        LinearKind::Bf16
                    } else {
                        LinearKind::F32
                    },
                    rows,
                    outputs: layer.outputs,
                    features: layer.features,
                    bias: layer.bias,
                },
            ),
            input,
        );
        match adapter {
            None => product,
            Some(low) => product.plus(
                Value::of(
                    op(LinearOp::Up { rows, outputs: low.outputs, rank: low.rank }),
                    Value::of(op(LinearOp::Down { rows, rank: low.rank, inputs: low.inputs }), input),
                ),
            ),
        }
    }
}

proof fn behind_one<O>(held: LinearHeld<O>, op: spec_fn(LinearOp) -> O, input: Value<O>, one: LinearStep)
    ensures
        held.behind(op, input, seq![one]) == held.after(op, input, one),
{
    reveal_with_fuel(LinearHeld::behind, 2);
    assert(seq![one].drop_last() =~= Seq::empty());
}

proof fn behind_two<O>(held: LinearHeld<O>, op: spec_fn(LinearOp) -> O, input: Value<O>, one: LinearStep, two: LinearStep)
    ensures
        held.behind(op, input, seq![one, two]) == held.after(op, input, one).after(op, input, two),
{
    behind_one(held, op, input, one);
    assert(seq![one, two].drop_last() =~= seq![one]);
}

proof fn behind_three<O>(
    held: LinearHeld<O>,
    op: spec_fn(LinearOp) -> O,
    input: Value<O>,
    one: LinearStep,
    two: LinearStep,
    three: LinearStep,
)
    ensures
        held.behind(op, input, seq![one, two, three]) == held.after(op, input, one).after(op, input, two).after(
            op,
            input,
            three,
        ),
{
    behind_two(held, op, input, one, two);
    assert(seq![one, two, three].drop_last() =~= seq![one, two]);
}

proof fn flow_of_list<O>(held: LinearHeld<O>, op: spec_fn(LinearOp) -> O, input: Value<O>, steps: Seq<LinearStep>)
    requires
        1 <= steps.len() <= 3,
    ensures
        steps.len() == 1 ==> held.behind(op, input, steps) == held.after(op, input, steps[0]),
        steps.len() == 2 ==> held.behind(op, input, steps) == held.after(op, input, steps[0]).after(op, input, steps[1]),
        steps.len() == 3 ==> held.behind(op, input, steps) == held.after(op, input, steps[0]).after(
            op,
            input,
            steps[1],
        ).after(op, input, steps[2]),
{
    if steps.len() == 1 {
        behind_one(held, op, input, steps[0]);
        assert(steps =~= seq![steps[0]]);
    } else if steps.len() == 2 {
        behind_two(held, op, input, steps[0], steps[1]);
        assert(steps =~= seq![steps[0], steps[1]]);
    } else {
        behind_three(held, op, input, steps[0], steps[1], steps[2]);
        assert(steps =~= seq![steps[0], steps[1], steps[2]]);
    }
}

/// Whatever its buffers held before, the launches of a layer on its input leave in the output the layer of the input.
pub proof fn a_layer_flows<O>(
    held: LinearHeld<O>,
    op: spec_fn(LinearOp) -> O,
    input: Value<O>,
    name: Seq<char>,
    layer: Option<Layer>,
    rows: usize,
    adapter: Option<LowRank>,
)
    requires
        model::linear_steps(name, layer, rows, adapter) is Ok,
    ensures
        layer is Some,
        held.behind(op, input, model::linear_steps(name, layer, rows, adapter)->Ok_0).output == layer_value(
            op,
            layer->0,
            rows,
            adapter,
            input,
        ),
{
    let steps = model::linear_steps(name, layer, rows, adapter)->Ok_0;
    flow_of_list(held, op, input, steps);
}

/// On rows that are already rotated the launches of an INT8 layer leave the layer of them, and the rows as they were.
pub proof fn a_quantized_layer_flows<O>(
    held: LinearHeld<O>,
    op: spec_fn(LinearOp) -> O,
    input: Value<O>,
    name: Seq<char>,
    layer: Option<Layer>,
    rows: usize,
    adapter: Option<LowRank>,
    swiglu: bool,
)
    requires
        model::quantized_steps(name, layer, rows, adapter, swiglu) is Ok,
    ensures
        layer is Some,
        held.behind(op, input, model::quantized_steps(name, layer, rows, adapter, swiglu)->Ok_0).output == int8_value(
            op,
            layer->0,
            rows,
            adapter,
            swiglu,
            held.quantized,
        ),
        held.behind(op, input, model::quantized_steps(name, layer, rows, adapter, swiglu)->Ok_0).quantized
            == held.quantized,
{
    let steps = model::quantized_steps(name, layer, rows, adapter, swiglu)->Ok_0;
    flow_of_list(held, op, input, steps);
}

} // verus!
