//! What the launches of a transformer block compute, row by row: the buffers of a call as values, and the block as a
//! formula of its rows.
use crate::block;
use crate::block::{
    Attending, Block, BlockCall, BlockStep, Buffer, Gating, Linear, Modulation, Norm, Part, Place, Plan, Table,
};
use crate::model;
use crate::model::{AdapterPart, DType, Layer, LinearKind, LinearStep, LowRank};
use crate::nvfp4::{Nvfp4Activations, Nvfp4Step, Nvfp4Weight};
use crate::plan;
use crate::value::Value;
use vstd::prelude::*;

verus! {

/// The operations of a block's kernels on a row.
#[allow(inconsistent_fields)]
pub enum BlockOp {
    /// A row gated by a chunk of a modulation table.
    Gated(Gating),
    Normalize { norm: Norm, modulation: Option<Modulation> },
    /// A row rotated and quantized.
    Rotated,
    QuantizedDown { part: Part, columns: usize, inputs: usize },
    Int8 {
        part: Part,
        first: usize,
        outputs: usize,
        features: usize,
        stride: usize,
        swiglu: bool,
        adapter: Option<AdapterPart>,
    },
    Product { part: Part, kind: LinearKind, outputs: usize, features: usize, bias: bool },
    Down { part: Part, rank: usize, inputs: usize },
    Up { part: Part, outputs: usize, rank: usize },
    /// A row quantized for an NVFP4 layer, of so many values or as a normalization leaves it.
    Nvfp4Rows { part: Part, features: Option<usize>, columns: usize },
    /// The factors of an NVFP4 product.
    Alpha { part: Part, down: bool },
    Nvfp4 { part: Part, down: bool, outputs: usize, columns: usize },
    /// A quantized row with the adapter's columns behind its own.
    WithColumns { count: usize, offset: usize, columns: usize },
    /// Normalized and rotated q and k, as the attention reads them.
    Prepared { attending: Option<Attending>, rows: usize, heads: usize, pairs: usize },
    /// What a row attends to among all rows.
    Attend { attending: Attending, prepared: bool, rows: usize, heads: usize, row: int },
    /// What a row attends to among the rows of all ranks.
    Sharded { row: int },
    SwiGlu { ffn: usize },
}

/// What a row of a buffer holds.
pub type Held = Value<BlockOp>;

/// Where a row is held.
pub enum Spot {
    In(Buffer),
    /// What an adapter's down projection left.
    Scratch,
    /// The quantized rows of an NVFP4 layer, the first of them the first behind those INT8 weights run.
    Activations,
    /// What the down projection of an NVFP4 layer's adapter left.
    Low,
    /// The factors of an NVFP4 product, in row zero.
    Factor(bool),
}

/// What the rows of a call's buffers hold.
pub struct Rows {
    pub held: spec_fn(Spot, int) -> Held,
}

/// The row that starts at a byte, of rows of `width` values.
pub open spec fn row_at(offset: usize, width: int) -> int {
    if offset == 0 {
        0
    } else {
        offset as int / (width * 2)
    }
}

/// A row with a delta on top, gated or as it is.
pub open spec fn gated(gate: Option<Gating>, delta: Held) -> Held {
    match gate {
        None => delta,
        Some(gate) => Value::of(BlockOp::Gated(gate), delta),
    }
}

pub open spec fn normed(norm: Norm, modulation: Option<Modulation>, value: Held) -> Held {
    Value::of(BlockOp::Normalize { norm, modulation }, value)
}

impl Rows {
    pub open spec fn at(self, spot: Spot, row: int) -> Held {
        (self.held)(spot, row)
    }

    pub open spec fn of(self, buffer: Buffer, row: int) -> Held {
        self.at(Spot::In(buffer), row)
    }

    /// `count` rows from `first` on as `value` says.
    pub open spec fn with(self, spot: Spot, first: int, count: int, value: spec_fn(int) -> Held) -> Rows {
        Rows {
            held: |other: Spot, row: int|
                if other == spot && first <= row < first + count {
                    value(row)
                } else {
                    self.at(other, row)
                },
        }
    }

    /// What the rows hold behind a launch of a linear layer.
    pub open spec fn after_linear(self, part: Part, input: Place, output: Place, step: LinearStep) -> Rows {
        match step {
            LinearStep::RotateQuantize { rows, features } => self.with(
                Spot::In(Buffer::Quantized),
                0,
                rows as int,
                |row: int|
                    Value::of(BlockOp::Rotated, self.of(input.buffer, row_at(input.offset, features as int) + row)),
            ),
            LinearStep::QuantizedDown { config, rows, columns, inputs } => self.with(
                Spot::Scratch,
                0,
                rows as int,
                |row: int|
                    Value::of(BlockOp::QuantizedDown { part, columns, inputs }, self.of(Buffer::Quantized, row)),
            ),
            LinearStep::Int8 { config, rows, first, outputs, features, stride, swiglu, adapter } => {
                let place = row_at(output.offset, outputs as int);
                let by = BlockOp::Int8 { part, first, outputs, features, stride, swiglu, adapter };
                self.with(
                    Spot::In(output.buffer),
                    place,
                    rows as int,
                    |row: int|
                        if adapter is Some {
                            Value::of_both(
                                by,
                                self.of(Buffer::Quantized, row - place),
                                self.at(Spot::Scratch, row - place),
                            )
                        } else {
                            Value::of(by, self.of(Buffer::Quantized, row - place))
                        },
                )
            },
            LinearStep::Product { kind, rows, outputs, features, bias } => {
                let place = row_at(output.offset, outputs as int);
                let from = row_at(input.offset, features as int);
                self.with(
                    Spot::In(output.buffer),
                    place,
                    rows as int,
                    |row: int|
                        Value::of(
                            BlockOp::Product { part, kind, outputs, features, bias },
                            self.of(input.buffer, row - place + from),
                        ),
                )
            },
            LinearStep::Down { rows, rank, inputs } => self.with(
                Spot::Scratch,
                0,
                rows as int,
                |row: int|
                    Value::of(
                        BlockOp::Down { part, rank, inputs },
                        self.of(input.buffer, row_at(input.offset, inputs as int) + row),
                    ),
            ),
            LinearStep::Up { rows, outputs, rank } => {
                let place = row_at(output.offset, outputs as int);
                self.with(
                    Spot::In(output.buffer),
                    place,
                    rows as int,
                    |row: int|
                        self.of(output.buffer, row).plus(
                            Value::of(BlockOp::Up { part, outputs, rank }, self.at(Spot::Scratch, row - place)),
                        ),
                )
            },
        }
    }

    /// What the rows hold behind a launch of an NVFP4 product.
    pub open spec fn after_nvfp4(self, part: Part, output: Place, step: Nvfp4Step) -> Rows {
        match step {
            Nvfp4Step::Alpha { down } => self.with(
                Spot::Factor(down),
                0,
                1,
                |row: int| Value::given(BlockOp::Alpha { part, down }),
            ),
            Nvfp4Step::Product { down, rows, outputs, columns } => {
                let place = if down {
                    0
                } else {
                    row_at(output.offset, outputs as int)
                };
                self.with(
                    if down {
                        Spot::Low
                    } else {
                        Spot::In(output.buffer)
                    },
                    place,
                    rows as int,
                    |row: int|
                        Value::of_both(
                            BlockOp::Nvfp4 { part, down, outputs, columns },
                            self.at(Spot::Activations, row - place),
                            self.at(Spot::Factor(down), 0),
                        ),
                )
            },
            Nvfp4Step::QuantizeColumns { rows, count, offset, columns } => self.with(
                Spot::Activations,
                0,
                rows as int,
                |row: int|
                    Value::of_both(
                        BlockOp::WithColumns { count, offset, columns },
                        self.at(Spot::Activations, row),
                        self.at(Spot::Low, row),
                    ),
            ),
        }
    }

    /// What the rows hold once a delta is on top of `count` rows of the residual from `first` on.
    pub open spec fn with_delta(self, first: int, count: int, gate: Option<Gating>) -> Rows {
        self.with(
            Spot::In(Buffer::Residual),
            first,
            count,
            |row: int| self.of(Buffer::Residual, row).plus(gated(gate, self.of(Buffer::Delta, row))),
        )
    }

    /// What the rows hold behind a launch.
    pub open spec fn after(self, step: BlockStep) -> Rows {
        match step {
            BlockStep::AddNormQuantize { norm, rows, gate, modulation, keep } => {
                let added = if gate is Some {
                    self.with_delta(0, rows as int, gate)
                } else {
                    self
                };
                let normal = |row: int| normed(norm, Some(modulation), added.of(Buffer::Residual, row));
                let quantized = added.with(
                    Spot::In(Buffer::Quantized),
                    0,
                    rows as int,
                    |row: int| Value::of(BlockOp::Rotated, normal(row)),
                );
                if keep {
                    quantized.with(Spot::In(Buffer::Normalized), 0, rows as int, normal)
                } else {
                    quantized
                }
            },
            BlockStep::AddNormQuantizeNvfp4 { norm, part, first, rows, columns, gate, modulation } => {
                let added = if gate is Some {
                    self.with_delta(first as int, rows as int, gate)
                } else {
                    self
                };
                added.with(
                    Spot::Activations,
                    0,
                    rows as int,
                    |row: int|
                        Value::of(
                            BlockOp::Nvfp4Rows { part, features: None, columns },
                            normed(norm, Some(modulation), added.of(Buffer::Residual, first + row)),
                        ),
                )
            },
            BlockStep::AddResidual { rows, gate } => self.with_delta(0, rows as int, gate),
            BlockStep::Normalize { norm, rows, modulation } => self.with(
                Spot::In(Buffer::Normalized),
                0,
                rows as int,
                |row: int| normed(norm, modulation, self.of(Buffer::Residual, row)),
            ),
            BlockStep::Linear { part, input, output, step } => self.after_linear(part, input, output, step),
            BlockStep::QuantizeNvfp4 { part, input, swiglu, rows, features, columns } => {
                let from = row_at(
                    input.offset,
                    if swiglu {
                        2 * features
                    } else {
                        features as int
                    },
                );
                self.with(
                    Spot::Activations,
                    0,
                    rows as int,
                    |row: int|
                        {
                            let taken = self.of(input.buffer, from + row);
                            Value::of(
                                BlockOp::Nvfp4Rows { part, features: Some(features), columns },
                                if swiglu {
                                    Value::of(BlockOp::SwiGlu { ffn: features }, taken)
                                } else {
                                    taken
                                },
                            )
                        },
                )
            },
            BlockStep::Nvfp4 { part, output, step } => self.after_nvfp4(part, output, step),
            BlockStep::PrepareInputs { attending, rows, heads, pairs } => self.with(
                Spot::In(Buffer::Qkv),
                0,
                rows as int,
                |row: int|
                    Value::of(
                        BlockOp::Prepared { attending: Some(attending), rows, heads, pairs },
                        self.of(Buffer::Qkv, row),
                    ),
            ),
            BlockStep::QkNormRope { rows, heads, pairs } => self.with(
                Spot::In(Buffer::Qkv),
                0,
                rows as int,
                |row: int|
                    Value::of(
                        BlockOp::Prepared { attending: None, rows, heads, pairs },
                        self.of(Buffer::Qkv, row),
                    ),
            ),
            BlockStep::Attend { attending, prepared, rows, heads } => self.with(
                Spot::In(Buffer::Attention),
                0,
                rows as int,
                |row: int|
                    Value::Made(
                        BlockOp::Attend { attending, prepared, rows, heads, row },
                        attended_rows(self, attending, rows as nat),
                    ),
            ),
            BlockStep::Sharded => Rows {
                held: |spot: Spot, row: int|
                    if spot == Spot::In(Buffer::Attention) {
                        Value::of(BlockOp::Sharded { row }, self.of(Buffer::Quantized, row))
                    } else {
                        self.at(spot, row)
                    },
            },
            BlockStep::SwiGlu { output, rows, ffn } => {
                let place = row_at(output.offset, ffn as int);
                self.with(
                    Spot::In(output.buffer),
                    place,
                    rows as int,
                    |row: int| Value::of(BlockOp::SwiGlu { ffn }, self.of(Buffer::Expanded, row - place)),
                )
            },
        }
    }

    /// What the rows hold behind launches.
    pub open spec fn behind(self, steps: Seq<BlockStep>) -> Rows
        decreases steps.len(),
    {
        if steps.len() == 0 {
            self
        } else {
            self.behind(steps.drop_last()).after(steps.last())
        }
    }
}

/// What an attention reads: every row of q, k and v, and every gate where its coarse branch has them.
pub open spec fn attended_rows(rows: Rows, attending: Attending, count: nat) -> Seq<Held> {
    let heads = Seq::new(count, |row: int| rows.of(Buffer::Qkv, row));
    if attending == (Attending::Vsa { gated: true }) {
        heads + Seq::new(count, |row: int| rows.of(Buffer::Gate, row))
    } else {
        heads
    }
}

/// An INT8 layer on a rotated row: its product, with the adapter's on top, inside the SwiGLU where there is one.
pub open spec fn int8_row(part: Part, layer: Layer, adapter: Option<LowRank>, swiglu: bool, rotated: Held) -> Held {
    let inside = match adapter {
        None => None,
        Some(low) => Some(AdapterPart { rank: low.rank, stride: low.columns->0 }),
    };
    let by = BlockOp::Int8 {
        part,
        first: 0,
        outputs: layer.outputs,
        features: layer.features,
        stride: 0,
        swiglu,
        adapter: inside,
    };
    match adapter {
        None => Value::of(by, rotated),
        Some(low) => Value::of_both(
            by,
            rotated,
            Value::of(BlockOp::QuantizedDown { part, columns: low.columns->0, inputs: low.inputs }, rotated),
        ),
    }
}

/// A layer on a row: an INT8 one on the rotated row, another one as it is with its adapter's product added.
pub open spec fn layer_row(part: Part, layer: Layer, adapter: Option<LowRank>, value: Held) -> Held {
    if layer.dtype == DType::I8 {
        int8_row(part, layer, adapter, false, Value::of(BlockOp::Rotated, value))
    } else {
        let kind = if layer.dtype == DType::Bf16 {
            LinearKind::Bf16
        } else {
            LinearKind::F32
        };
        let product = Value::of(
            BlockOp::Product { part, kind, outputs: layer.outputs, features: layer.features, bias: layer.bias },
            value,
        );
        match adapter {
            None => product,
            Some(low) => product.plus(
                Value::of(
                    BlockOp::Up { part, outputs: low.outputs, rank: low.rank },
                    Value::of(BlockOp::Down { part, rank: low.rank, inputs: low.inputs }, value),
                ),
            ),
        }
    }
}

/// A quantized row as an NVFP4 product reads it: with its adapter's down projection in its last columns.
pub open spec fn adapted_row(part: Part, weight: Nvfp4Weight, quantized: Held) -> Held {
    if weight.rank > 0 {
        Value::of_both(
            BlockOp::WithColumns { count: weight.rank, offset: weight.features, columns: weight.columns },
            quantized,
            Value::of_both(
                BlockOp::Nvfp4 { part, down: true, outputs: weight.rank, columns: weight.columns },
                quantized,
                Value::given(BlockOp::Alpha { part, down: true }),
            ),
        )
    } else {
        quantized
    }
}

/// The product of an NVFP4 layer on a quantized row.
pub open spec fn nvfp4_row(part: Part, weight: Nvfp4Weight, quantized: Held) -> Held {
    Value::of_both(
        BlockOp::Nvfp4 { part, down: false, outputs: weight.outputs, columns: weight.columns },
        adapted_row(part, weight, quantized),
        Value::given(BlockOp::Alpha { part, down: false }),
    )
}

/// A row quantized for an NVFP4 layer, `fused` in the pass that normalized it.
pub open spec fn nvfp4_input(part: Part, weight: Nvfp4Weight, fused: bool, value: Held) -> Held {
    let features = if fused {
        None
    } else {
        Some(weight.features)
    };
    Value::of(BlockOp::Nvfp4Rows { part, features, columns: weight.columns }, value)
}

/// A layer of a block on one of its rows: the first `head` rows, and all where there are no NVFP4 weights, through the
/// weights of the checkpoint, and the others through the NVFP4 ones.
pub open spec fn projected(part: Part, linear: Linear, head: int, fused: bool, row: int, value: Held) -> Held {
    match linear.nvfp4 {
        Some(weight) if row >= head => nvfp4_row(part, weight, nvfp4_input(part, weight, fused, value)),
        _ => layer_row(part, linear.layer->0, linear.adapter, value),
    }
}

/// A block on the rows of a residual and of what the block before left to add.
pub struct Given {
    pub residual: spec_fn(int) -> Held,
    pub delta: spec_fn(int) -> Held,
}

/// Whether the rows of a block's first layer are quantized in the pass that normalizes them.
pub open spec fn is_fused(linear: Linear, call: BlockCall) -> bool {
    call.modulated && linear.int8()
}

pub open spec fn modulation_of(call: BlockCall, shift: usize, scale: usize) -> Option<Modulation> {
    if call.modulated {
        Some(Modulation { shift, scale })
    } else {
        None
    }
}

/// A row of the residual in front of a block's first normalization: with what the block before left, gated by the
/// last chunk of that block's table.
pub open spec fn row_in(call: BlockCall, given: Given, row: int) -> Held {
    if call.pending && call.modulated {
        (given.residual)(row).plus(
            Value::of(BlockOp::Gated(Gating { table: Table::Pending, chunk: 5 }), (given.delta)(row)),
        )
    } else {
        (given.residual)(row)
    }
}

/// A row behind the first normalization.
pub open spec fn first_norm(call: BlockCall, given: Given, row: int) -> Held {
    normed(Norm::First, modulation_of(call, 0, 1), row_in(call, given, row))
}

/// The gates of a row, of what the qkv projection reads of it.
pub open spec fn gates_of(block: Block, call: BlockCall, given: Given, row: int) -> Held {
    let normal = first_norm(call, given, row);
    match block.gate.nvfp4 {
        Some(weight) => if row < call.head {
            int8_row(Part::Gate, block.gate.layer->0, None, false, Value::of(BlockOp::Rotated, normal))
        } else {
            let read = block.qkv.nvfp4->0;
            nvfp4_row(Part::Gate, weight, adapted_row(Part::Qkv, read, nvfp4_input(Part::Qkv, read, true, normal)))
        },
        None => if is_fused(block.qkv, call) {
            int8_row(Part::Gate, block.gate.layer->0, None, false, Value::of(BlockOp::Rotated, normal))
        } else {
            layer_row(Part::Gate, block.gate.layer->0, block.gate.adapter, normal)
        },
    }
}

/// What a row attends to: normalized and rotated heads of every row, and the gates of every row where there are any.
pub open spec fn attention_of(block: Block, call: BlockCall, given: Given, row: int) -> Held {
    if call.sharded {
        Value::of(BlockOp::Sharded { row }, Value::of(BlockOp::Rotated, first_norm(call, given, row)))
    } else {
        let attending = call.attending(block.gated(call));
        let prepared = attending != Attending::Dense;
        let heads = Seq::new(
            call.tokens as nat,
            |other: int|
                Value::of(
                    BlockOp::Prepared {
                        attending: if prepared {
                            Some(attending)
                        } else {
                            None
                        },
                        rows: call.tokens,
                        heads: call.heads,
                        pairs: call.pairs,
                    },
                    projected(
                        Part::Qkv,
                        block.qkv,
                        call.head as int,
                        is_fused(block.qkv, call),
                        other,
                        first_norm(call, given, other),
                    ),
                ),
        );
        Value::Made(
            BlockOp::Attend { attending, prepared, rows: call.tokens, heads: call.heads, row },
            if attending == (Attending::Vsa { gated: true }) {
                heads + Seq::new(call.tokens as nat, |other: int| gates_of(block, call, given, other))
            } else {
                heads
            },
        )
    }
}

/// A row between the halves of a block: with the attention on top, gated by the third chunk of the block's own table.
pub open spec fn row_between(block: Block, call: BlockCall, given: Given, row: int) -> Held {
    let out = projected(
        Part::Out,
        block.out,
        call.head as int,
        false,
        row,
        attention_of(block, call, given, row),
    );
    row_in(call, given, row).plus(
        if call.modulated {
            Value::of(BlockOp::Gated(Gating { table: Table::Own, chunk: 2 }), out)
        } else {
            out
        },
    )
}

/// `silu(gate) · up` of a row behind the second normalization.
pub open spec fn activated_of(block: Block, call: BlockCall, given: Given, row: int) -> Held {
    let normal = normed(Norm::Second, modulation_of(call, 3, 4), row_between(block, call, given, row));
    if is_fused(block.fc1, call) {
        match block.fc1.nvfp4 {
            Some(weight) if row >= call.head => {
                let ffn = match block.fc2.nvfp4 {
                    Some(down) => down.features,
                    None => call.ffn,
                };
                Value::of(
                    BlockOp::SwiGlu { ffn },
                    nvfp4_row(Part::Fc1, weight, nvfp4_input(Part::Fc1, weight, true, normal)),
                )
            },
            _ => int8_row(
                Part::Fc1,
                block.fc1.layer->0,
                block.fc1.adapter,
                true,
                Value::of(BlockOp::Rotated, normal),
            ),
        }
    } else {
        Value::of(
            BlockOp::SwiGlu { ffn: call.ffn },
            projected(Part::Fc1, block.fc1, call.head as int, false, row, normal),
        )
    }
}

/// The MLP of a row.
pub open spec fn mlp_of(block: Block, call: BlockCall, given: Given, row: int) -> Held {
    projected(Part::Fc2, block.fc2, call.head as int, false, row, activated_of(block, call, given, row))
}

/// Whether the rows of an NVFP4 layer have places.
pub open spec fn has_width(linear: Linear) -> bool {
    linear.nvfp4 matches Some(weight) ==> weight.features > 0 && weight.outputs > 0
}

/// Whether what a block's gates read is what its qkv projection read.
pub open spec fn feeds_gates(block: Block, call: BlockCall) -> bool {
    block.gated(call) ==> match block.gate.nvfp4 {
        Some(_) => is_fused(block.qkv, call) && block.qkv.nvfp4 is Some,
        None => is_fused(block.qkv, call) ==> block.gate.int8() && block.qkv.nvfp4 is None,
    }
}

/// Whether a block can be told by its rows: its NVFP4 layers have widths, its gates read what its heads are made of, and
/// a shared-out block quantizes all its rows.
pub open spec fn is_told(block: Block, call: BlockCall) -> bool {
    &&& call.serves_all(block)
    &&& call.head > 0 ==> call.ffn > 0
    &&& has_width(block.qkv)
    &&& has_width(block.gate)
    &&& has_width(block.out)
    &&& has_width(block.fc1)
    &&& has_width(block.fc2)
    &&& feeds_gates(block, call)
    &&& call.sharded ==> is_fused(block.qkv, call) && block.qkv.nvfp4 is None
}

proof fn behind_both(rows: Rows, one: Seq<BlockStep>, other: Seq<BlockStep>)
    ensures
        rows.behind(one + other) == rows.behind(one).behind(other),
    decreases other.len(),
{
    if other.len() == 0 {
        assert(one + other =~= one);
    } else {
        behind_both(rows, one, other.drop_last());
        assert((one + other).drop_last() =~= one + other.drop_last());
    }
}

proof fn behind_one(rows: Rows, one: BlockStep)
    ensures
        rows.behind(seq![one]) == rows.after(one),
{
    reveal_with_fuel(Rows::behind, 2);
    assert(seq![one].drop_last() =~= Seq::empty());
}

proof fn behind_few(rows: Rows, steps: Seq<BlockStep>)
    ensures
        steps.len() == 1 ==> rows.behind(steps) == rows.after(steps[0]),
        steps.len() == 2 ==> rows.behind(steps) == rows.after(steps[0]).after(steps[1]),
        steps.len() == 3 ==> rows.behind(steps) == rows.after(steps[0]).after(steps[1]).after(steps[2]),
    decreases steps.len(),
{
    if 1 <= steps.len() <= 3 {
        if steps.len() == 1 {
            assert(steps =~= seq![steps[0]]);
            behind_one(rows, steps[0]);
        } else {
            behind_few(rows, steps.drop_last());
        }
    }
}

proof fn behind_plans(rows: Rows, one: Plan, other: Plan)
    requires
        plan::both(one, other) is Ok,
    ensures
        one is Ok,
        other is Ok,
        rows.behind(plan::both(one, other)->Ok_0) == rows.behind(one->Ok_0).behind(other->Ok_0),
{
    behind_both(rows, one->Ok_0, other->Ok_0);
}

/// Whether every buffer but one is as it was, but for what a layer keeps on the way.
spec fn only_writes(then: Rows, rows: Rows, buffer: Buffer) -> bool {
    forall|other: Buffer, row: int|
        other != buffer && other != Buffer::Quantized ==> #[trigger] then.of(other, row) == rows.of(other, row)
}

/// Whether the rows outside a range are as they were.
spec fn only_rows(then: Rows, rows: Rows, buffer: Buffer, first: int, count: int) -> bool {
    forall|row: int| !(first <= row < first + count) ==> #[trigger] then.of(buffer, row) == rows.of(buffer, row)
}

/// What the launches of a layer leave.
proof fn a_layer_flows(
    rows: Rows,
    part: Part,
    input: Buffer,
    output: Buffer,
    name: Seq<char>,
    linear: Linear,
    count: usize,
)
    requires
        model::linear_steps(name, linear.layer, count, linear.adapter) is Ok,
        input != output,
        input != Buffer::Quantized,
        output != Buffer::Quantized,
    ensures
        ({
            let steps = model::linear_steps(name, linear.layer, count, linear.adapter)->Ok_0;
            let then = rows.behind(block::linear_launches(part, block::at(input), block::at(output), steps));
            &&& linear.layer is Some
            &&& forall|row: int|
                0 <= row < count ==> #[trigger] then.of(output, row) == layer_row(
                    part,
                    linear.layer->0,
                    linear.adapter,
                    rows.of(input, row),
                )
            &&& only_writes(then, rows, output)
            &&& only_rows(then, rows, output, 0, count as int)
        }),
{
    let steps = model::linear_steps(name, linear.layer, count, linear.adapter)->Ok_0;
    let list = block::linear_launches(part, block::at(input), block::at(output), steps);
    behind_few(rows, list);
}

/// What the launches of a layer on rotated rows leave.
proof fn a_quantized_layer_flows(
    rows: Rows,
    part: Part,
    output: Buffer,
    name: Seq<char>,
    layer: Option<Layer>,
    adapter: Option<LowRank>,
    count: usize,
    swiglu: bool,
)
    requires
        model::quantized_steps(name, layer, count, adapter, swiglu) is Ok,
        output != Buffer::Quantized,
    ensures
        ({
            let steps = model::quantized_steps(name, layer, count, adapter, swiglu)->Ok_0;
            let then = rows.behind(
                block::linear_launches(part, block::at(Buffer::Quantized), block::at(output), steps),
            );
            &&& layer is Some
            &&& forall|row: int|
                0 <= row < count ==> #[trigger] then.of(output, row) == int8_row(
                    part,
                    layer->0,
                    adapter,
                    swiglu,
                    rows.of(Buffer::Quantized, row),
                )
            &&& forall|row: int| #[trigger] then.of(Buffer::Quantized, row) == rows.of(Buffer::Quantized, row)
            &&& forall|row: int| #[trigger] then.at(Spot::Activations, row) == rows.at(Spot::Activations, row)
            &&& only_writes(then, rows, output)
            &&& only_rows(then, rows, output, 0, count as int)
        }),
{
    let steps = model::quantized_steps(name, layer, count, adapter, swiglu)->Ok_0;
    let list = block::linear_launches(part, block::at(Buffer::Quantized), block::at(output), steps);
    behind_few(rows, list);
}

/// What the launches of an NVFP4 product leave.
proof fn a_gemm_flows(rows: Rows, part: Part, weight: Nvfp4Weight, output: Place, count: usize)
    requires
        output.buffer != Buffer::Quantized,
    ensures
        ({
            let then = rows.behind(
                block::nvfp4_launches(part, output, Nvfp4Activations::gemm_steps(weight, count)),
            );
            let place = row_at(output.offset, weight.outputs as int);
            &&& forall|row: int|
                place <= row < place + count ==> #[trigger] then.of(output.buffer, row) == nvfp4_row(
                    part,
                    weight,
                    rows.at(Spot::Activations, row - place),
                )
            &&& forall|row: int|
                0 <= row < count ==> #[trigger] then.at(Spot::Activations, row) == adapted_row(
                    part,
                    weight,
                    rows.at(Spot::Activations, row),
                )
            &&& forall|row: int| #[trigger] then.of(Buffer::Quantized, row) == rows.of(Buffer::Quantized, row)
            &&& only_writes(then, rows, output.buffer)
            &&& only_rows(then, rows, output.buffer, place, count as int)
        }),
{
    let steps = Nvfp4Activations::gemm_steps(weight, count);
    let list = block::nvfp4_launches(part, output, steps);
    if weight.rank > 0 {
        let one = list.take(3);
        let other = list.skip(3);
        assert(list =~= one + other);
        behind_both(rows, one, other);
        behind_few(rows, one);
        behind_few(rows.behind(one), other);
    } else {
        behind_few(rows, list);
    }
}

/// What a layer of a block leaves.
proof fn a_linear_flows(rows: Rows, block: Block, part: Part, input: Buffer, output: Buffer, count: usize, head: usize)
    requires
        block.linear_plan(part, block::at(input), block::at(output), count, head) is Ok,
        head <= count,
        has_width(block.linear_of(part)),
        block.linear_of(part).nvfp4 matches Some(weight) ==> head * weight.features * 2 <= usize::MAX && head
            * weight.outputs * 2 <= usize::MAX,
        input != output,
        input != Buffer::Quantized,
        output != Buffer::Quantized,
    ensures
        ({
            let then = rows.behind(
                block.linear_plan(part, block::at(input), block::at(output), count, head)->Ok_0,
            );
            &&& forall|row: int|
                0 <= row < count ==> #[trigger] then.of(output, row) == projected(
                    part,
                    block.linear_of(part),
                    head as int,
                    false,
                    row,
                    rows.of(input, row),
                )
            &&& only_writes(then, rows, output)
        }),
{
    reveal(Block::linear_plan);
    let linear = block.linear_of(part);
    let name = block.name_of(part);
    let (from, into) = (block::at(input), block::at(output));
    match linear.nvfp4 {
        None => {
            a_layer_flows(rows, part, input, output, name, linear, count);
        },
        Some(weight) => {
            let tail = (count - head) as usize;
            let first: Plan = plan::when(
                head > 0,
                block::launched(part, from, into, model::linear_steps(name, linear.layer, head, linear.adapter)),
            );
            let quantize = BlockStep::QuantizeNvfp4 {
                part,
                input: Place { offset: (head * weight.features * 2) as usize, ..from },
                swiglu: false,
                rows: tail,
                features: weight.features,
                columns: weight.columns,
            };
            let place = Place { offset: (head * weight.outputs * 2) as usize, ..into };
            let gemm = block::nvfp4_launches(part, place, Nvfp4Activations::gemm_steps(weight, tail));
            let second: Plan = Ok(seq![quantize] + gemm);
            behind_plans(rows, first, second);
            if head > 0 {
                a_layer_flows(rows, part, input, output, name, linear, head);
            }
            let middle = rows.behind(first->Ok_0);
            behind_both(middle, seq![quantize], gemm);
            behind_one(middle, quantize);
            let quantized = middle.after(quantize);
            a_gemm_flows(quantized, part, weight, place, tail);
            a_place_is_its_row(head, weight.features);
            a_place_is_its_row(head, weight.outputs);
            let then = quantized.behind(gemm);
            assert(only_writes(middle, rows, output));
            assert forall|row: int| 0 <= row < count implies #[trigger] then.of(output, row) == projected(
                part,
                linear,
                head as int,
                false,
                row,
                rows.of(input, row),
            ) by {
                if row < head {
                    assert(then.of(output, row) == quantized.of(output, row));
                    assert(quantized.of(output, row) == middle.of(output, row));
                } else {
                    assert(quantized.at(Spot::Activations, row - head) == nvfp4_input(
                        part,
                        weight,
                        false,
                        middle.of(input, row),
                    ));
                    assert(middle.of(input, row) == rows.of(input, row));
                }
            }
            assert forall|other: Buffer, row: int| other != output && other != Buffer::Quantized implies #[trigger] then.of(
                other,
                row,
            ) == rows.of(other, row) by {
                assert(then.of(other, row) == quantized.of(other, row));
                assert(quantized.of(other, row) == middle.of(other, row));
            }
        },
    }
}

/// The byte behind `head` rows is that of the row behind them.
proof fn a_place_is_its_row(head: usize, width: usize)
    requires
        width > 0,
        head * width * 2 <= usize::MAX,
    ensures
        row_at((head * width * 2) as usize, width as int) == head,
{
    assert(head * width * 2 == head * (width * 2)) by (nonlinear_arith);
    if head > 0 {
        assert(head * width * 2 > 0) by (nonlinear_arith)
            requires
                head > 0,
                width > 0,
        ;
        vstd::arithmetic::div_mod::lemma_div_multiples_vanish(head as int, width * 2);
    }
}

/// Whether the rows of a call are those given to the block.
pub open spec fn begins(rows: Rows, call: BlockCall, given: Given) -> bool {
    forall|row: int|
        0 <= row < call.tokens ==> #[trigger] rows.of(Buffer::Residual, row) == (given.residual)(row) && rows.of(
            Buffer::Delta,
            row,
        ) == (given.delta)(row)
}

/// Whether the rows are those behind the first normalization, with the heads projected where they are not shared out.
spec fn is_projected(rows: Rows, block: Block, call: BlockCall, given: Given) -> bool {
    &&& forall|row: int|
        0 <= row < call.tokens ==> #[trigger] rows.of(Buffer::Residual, row) == row_in(call, given, row)
    &&& !call.sharded ==> forall|row: int|
        0 <= row < call.tokens ==> #[trigger] rows.of(Buffer::Qkv, row) == projected(
            Part::Qkv,
            block.qkv,
            call.head as int,
            is_fused(block.qkv, call),
            row,
            first_norm(call, given, row),
        )
    &&& is_fused(block.qkv, call) ==> forall|row: int|
        0 <= row < (if block.qkv.nvfp4 is Some {
            call.head
        } else {
            call.tokens
        }) ==> #[trigger] rows.of(Buffer::Quantized, row) == Value::of(BlockOp::Rotated, first_norm(call, given, row))
    &&& !is_fused(block.qkv, call) ==> forall|row: int|
        0 <= row < call.tokens ==> #[trigger] rows.of(Buffer::Normalized, row) == first_norm(call, given, row)
    &&& is_fused(block.qkv, call) && block.qkv.nvfp4 is Some ==> forall|row: int|
        0 <= row < call.tokens - call.head ==> #[trigger] rows.at(Spot::Activations, row) == adapted_row(
            Part::Qkv,
            block.qkv.nvfp4->0,
            nvfp4_input(Part::Qkv, block.qkv.nvfp4->0, true, first_norm(call, given, call.head + row)),
        )
}

/// What the first `count` rows of a fused projection leave.
proof fn fused_rows_flow(rows: Rows, block: Block, call: BlockCall, given: Given, count: usize, list: Plan)
    requires
        is_fused(block.qkv, call),
        count <= call.tokens,
        begins(rows, call, given),
        list is Ok,
        list == plan::both(
            block.add_norm_quantize_plan(
                Norm::First,
                Part::Qkv,
                count,
                Block::pending_gate(call),
                Modulation { shift: 0, scale: 1 },
            ),
            plan::when(!call.sharded, block.quantized_plan(Part::Qkv, Buffer::Qkv, count, true, false)),
        ),
    ensures
        ({
            let then = rows.behind(list->Ok_0);
            &&& forall|row: int|
                0 <= row < count ==> {
                    &&& #[trigger] then.of(Buffer::Residual, row) == row_in(call, given, row)
                    &&& then.of(Buffer::Quantized, row) == Value::of(BlockOp::Rotated, first_norm(call, given, row))
                    &&& !call.sharded ==> then.of(Buffer::Qkv, row) == layer_row(
                        Part::Qkv,
                        block.qkv.layer->0,
                        block.qkv.adapter,
                        first_norm(call, given, row),
                    )
                }
            &&& forall|row: int|
                count <= row ==> #[trigger] then.of(Buffer::Residual, row) == rows.of(Buffer::Residual, row)
            &&& forall|row: int| #[trigger] then.of(Buffer::Delta, row) == rows.of(Buffer::Delta, row)
        }),
{
    reveal(Block::quantized_plan);
    let gate = Block::pending_gate(call);
    let modulation = Modulation { shift: 0, scale: 1 };
    let first = block.add_norm_quantize_plan(Norm::First, Part::Qkv, count, gate, modulation);
    let second: Plan = plan::when(!call.sharded, block.quantized_plan(Part::Qkv, Buffer::Qkv, count, true, false));
    behind_plans(rows, first, second);
    behind_few(rows, first->Ok_0);
    let middle = rows.behind(first->Ok_0);
    assert forall|row: int| 0 <= row < count implies #[trigger] middle.of(Buffer::Residual, row) == row_in(
        call,
        given,
        row,
    ) && middle.of(Buffer::Quantized, row) == Value::of(BlockOp::Rotated, first_norm(call, given, row)) by {
        assert(rows.of(Buffer::Residual, row) == (given.residual)(row));
    }
    if !call.sharded {
        a_quantized_layer_flows(
            middle,
            Part::Qkv,
            Buffer::Qkv,
            block.name_of(Part::Qkv),
            block.qkv.layer,
            block.qkv.adapter,
            count,
            false,
        );
    }
    let then = middle.behind(second->Ok_0);
    assert forall|row: int| 0 <= row < count implies {
        &&& #[trigger] then.of(Buffer::Residual, row) == row_in(call, given, row)
        &&& then.of(Buffer::Quantized, row) == Value::of(BlockOp::Rotated, first_norm(call, given, row))
        &&& !call.sharded ==> then.of(Buffer::Qkv, row) == layer_row(
            Part::Qkv,
            block.qkv.layer->0,
            block.qkv.adapter,
            first_norm(call, given, row),
        )
    } by {
        assert(middle.of(Buffer::Residual, row) == row_in(call, given, row));
        assert(then.of(Buffer::Residual, row) == middle.of(Buffer::Residual, row));
        assert(then.of(Buffer::Quantized, row) == middle.of(Buffer::Quantized, row));
        if !call.sharded {
            assert(then.of(Buffer::Qkv, row) == int8_row(
                Part::Qkv,
                block.qkv.layer->0,
                block.qkv.adapter,
                false,
                middle.of(Buffer::Quantized, row),
            ));
        }
    }
    assert forall|row: int| count <= row implies #[trigger] then.of(Buffer::Residual, row) == rows.of(
        Buffer::Residual,
        row,
    ) by {
        assert(then.of(Buffer::Residual, row) == middle.of(Buffer::Residual, row));
    }
    assert forall|row: int| #[trigger] then.of(Buffer::Delta, row) == rows.of(Buffer::Delta, row) by {
        assert(then.of(Buffer::Delta, row) == middle.of(Buffer::Delta, row));
    }
}

proof fn a_fused_projection_flows(rows: Rows, block: Block, call: BlockCall, given: Given)
    requires
        is_told(block, call),
        is_fused(block.qkv, call),
        begins(rows, call, given),
        block.fused_projection_plan(call) is Ok,
    ensures
        is_projected(rows.behind(block.fused_projection_plan(call)->Ok_0), block, call, given),
{
    reveal(Block::fused_projection_plan);
    let gate = Block::pending_gate(call);
    let modulation = Modulation { shift: 0, scale: 1 };
    let count = if block.qkv.nvfp4 is Some {
        call.head
    } else {
        call.tokens
    };
    let early = plan::both(
        block.add_norm_quantize_plan(Norm::First, Part::Qkv, count, gate, modulation),
        plan::when(!call.sharded, block.quantized_plan(Part::Qkv, Buffer::Qkv, count, true, false)),
    );
    let first: Plan = plan::when(count > 0, early);
    match block.qkv.nvfp4 {
        None => {
            behind_plans(rows, first, plan::nothing());
            if count > 0 {
                fused_rows_flow(rows, block, call, given, count, early);
            }
            let then = rows.behind(first->Ok_0);
            assert(then.behind(Seq::empty()) == then);
            assert forall|row: int| 0 <= row < call.tokens implies #[trigger] then.of(Buffer::Quantized, row)
                == Value::of(BlockOp::Rotated, first_norm(call, given, row)) by {
                assert(then.of(Buffer::Residual, row) == row_in(call, given, row));
            }
            assert forall|row: int| !call.sharded && 0 <= row < call.tokens implies #[trigger] then.of(Buffer::Qkv, row)
                == projected(
                Part::Qkv,
                block.qkv,
                call.head as int,
                true,
                row,
                first_norm(call, given, row),
            ) by {
                assert(then.of(Buffer::Residual, row) == row_in(call, given, row));
            }
        },
        Some(weight) => {
            let tail = (call.tokens - call.head) as usize;
            let norm = block.add_norm_quantize_nvfp4_plan(
                Norm::First,
                Part::Qkv,
                weight,
                call.head,
                tail,
                gate,
                modulation,
            );
            let place = Place { buffer: Buffer::Qkv, offset: (call.head * weight.outputs * 2) as usize };
            let gemm = Block::gemm_plan(Part::Qkv, weight, place, tail);
            behind_plans(rows, first, plan::both(norm, gemm));
            if count > 0 {
                fused_rows_flow(rows, block, call, given, count, early);
            }
            let middle = rows.behind(first->Ok_0);
            behind_plans(middle, norm, gemm);
            behind_few(middle, norm->Ok_0);
            let normal = middle.behind(norm->Ok_0);
            a_gemm_flows(normal, Part::Qkv, weight, place, tail);
            a_place_is_its_row(call.head, weight.outputs);
            let then = normal.behind(gemm->Ok_0);
            assert forall|row: int| call.head <= row < call.tokens implies #[trigger] normal.of(Buffer::Residual, row)
                == row_in(call, given, row) && normal.at(Spot::Activations, row - call.head) == nvfp4_input(
                Part::Qkv,
                weight,
                true,
                first_norm(call, given, row),
            ) by {
                assert(middle.of(Buffer::Residual, row) == rows.of(Buffer::Residual, row));
                assert(middle.of(Buffer::Delta, row) == rows.of(Buffer::Delta, row));
                assert(rows.of(Buffer::Residual, row) == (given.residual)(row));
            }
            assert forall|row: int| 0 <= row < call.head implies {
                &&& #[trigger] then.of(Buffer::Residual, row) == middle.of(Buffer::Residual, row)
                &&& then.of(Buffer::Quantized, row) == middle.of(Buffer::Quantized, row)
                &&& then.of(Buffer::Qkv, row) == middle.of(Buffer::Qkv, row)
            } by {
                assert(then.of(Buffer::Residual, row) == normal.of(Buffer::Residual, row));
                assert(then.of(Buffer::Quantized, row) == normal.of(Buffer::Quantized, row));
                assert(then.of(Buffer::Qkv, row) == normal.of(Buffer::Qkv, row));
            }
            assert forall|row: int| 0 <= row < call.tokens implies #[trigger] then.of(Buffer::Residual, row) == row_in(
                call,
                given,
                row,
            ) by {
                if row >= call.head {
                    assert(then.of(Buffer::Residual, row) == normal.of(Buffer::Residual, row));
                } else {
                    assert(middle.of(Buffer::Residual, row) == row_in(call, given, row));
                }
            }
            assert forall|row: int| 0 <= row < call.tokens implies #[trigger] then.of(Buffer::Qkv, row) == projected(
                Part::Qkv,
                block.qkv,
                call.head as int,
                true,
                row,
                first_norm(call, given, row),
            ) by {
                if row >= call.head {
                    assert(normal.of(Buffer::Residual, row) == row_in(call, given, row));
                } else {
                    assert(then.of(Buffer::Residual, row) == middle.of(Buffer::Residual, row));
                    assert(middle.of(Buffer::Residual, row) == row_in(call, given, row));
                }
            }
            assert forall|row: int| 0 <= row < call.head implies #[trigger] then.of(Buffer::Quantized, row) == Value::of(
                BlockOp::Rotated,
                first_norm(call, given, row),
            ) by {
                assert(then.of(Buffer::Residual, row) == middle.of(Buffer::Residual, row));
                assert(middle.of(Buffer::Residual, row) == row_in(call, given, row));
            }
            assert forall|row: int| 0 <= row < call.tokens - call.head implies #[trigger] then.at(
                Spot::Activations,
                row,
            ) == adapted_row(
                Part::Qkv,
                weight,
                nvfp4_input(Part::Qkv, weight, true, first_norm(call, given, call.head + row)),
            ) by {
                assert(normal.of(Buffer::Residual, call.head + row) == row_in(call, given, call.head + row));
            }
        },
    }
}

proof fn a_plain_projection_flows(rows: Rows, block: Block, call: BlockCall, given: Given)
    requires
        is_told(block, call),
        !is_fused(block.qkv, call),
        begins(rows, call, given),
        block.plain_projection_plan(call) is Ok,
    ensures
        is_projected(rows.behind(block.plain_projection_plan(call)->Ok_0), block, call, given),
{
    reveal(Block::plain_projection_plan);
    let add = BlockStep::AddResidual { rows: call.tokens, gate: Block::pending_gate(call) };
    let first: Plan = plan::when(call.pending && call.modulated, Ok(seq![add]));
    let second = block.normalize_plan(Norm::First, call.tokens, modulation_of(call, 0, 1));
    let third = block.linear_plan(
        Part::Qkv,
        block::at(Buffer::Normalized),
        block::at(Buffer::Qkv),
        call.tokens,
        call.head,
    );
    assert(block.plain_projection_plan(call) == plan::both(first, plan::both(second, third)));
    behind_plans(rows, first, plan::both(second, third));
    if call.pending && call.modulated {
        behind_one(rows, add);
    }
    let added = rows.behind(first->Ok_0);
    assert forall|row: int| 0 <= row < call.tokens implies #[trigger] added.of(Buffer::Residual, row) == row_in(
        call,
        given,
        row,
    ) by {
        assert(rows.of(Buffer::Residual, row) == (given.residual)(row));
    }
    behind_plans(added, second, third);
    behind_few(added, second->Ok_0);
    let normal = added.behind(second->Ok_0);
    a_linear_flows(normal, block, Part::Qkv, Buffer::Normalized, Buffer::Qkv, call.tokens, call.head);
    let then = normal.behind(third->Ok_0);
    assert forall|row: int| 0 <= row < call.tokens implies #[trigger] normal.of(Buffer::Normalized, row) == first_norm(
        call,
        given,
        row,
    ) by {
        assert(added.of(Buffer::Residual, row) == row_in(call, given, row));
    }
    assert forall|row: int| 0 <= row < call.tokens implies #[trigger] then.of(Buffer::Residual, row) == row_in(
        call,
        given,
        row,
    ) by {
        assert(normal.of(Buffer::Residual, row) == added.of(Buffer::Residual, row));
    }
    assert forall|row: int| 0 <= row < call.tokens implies #[trigger] then.of(Buffer::Normalized, row) == first_norm(
        call,
        given,
        row,
    ) by {
        assert(normal.of(Buffer::Normalized, row) == first_norm(call, given, row));
    }
    assert forall|row: int| 0 <= row < call.tokens implies #[trigger] then.of(Buffer::Qkv, row) == projected(
        Part::Qkv,
        block.qkv,
        call.head as int,
        false,
        row,
        first_norm(call, given, row),
    ) by {
        assert(normal.of(Buffer::Normalized, row) == first_norm(call, given, row));
    }
}

/// What the gates leave: themselves, and what the attention reads beside them.
proof fn gates_flow(rows: Rows, block: Block, call: BlockCall, given: Given)
    requires
        is_told(block, call),
        is_projected(rows, block, call, given),
        block.gate_plan(call) is Ok,
    ensures
        ({
            let then = rows.behind(block.gate_plan(call)->Ok_0);
            &&& block.gated(call) ==> forall|row: int|
                0 <= row < call.tokens ==> #[trigger] then.of(Buffer::Gate, row) == gates_of(block, call, given, row)
            &&& only_writes(then, rows, Buffer::Gate)
            &&& !block.gated(call) ==> then == rows
        }),
{
    reveal(Block::gate_plan);
    let list = block.gate_plan(call)->Ok_0;
    if block.gated(call) {
        let name = block.name_of(Part::Gate);
        match block.gate.nvfp4 {
            Some(weight) => {
                reveal(Block::quantized_plan);
                let first: Plan = plan::when(
                    call.head > 0,
                    block.quantized_plan(Part::Gate, Buffer::Gate, call.head, false, false),
                );
                let tail = (call.tokens - call.head) as usize;
                let place = Place { buffer: Buffer::Gate, offset: (call.head * weight.outputs * 2) as usize };
                let second = Block::gemm_plan(Part::Gate, weight, place, tail);
                behind_plans(rows, first, second);
                if call.head > 0 {
                    a_quantized_layer_flows(
                        rows,
                        Part::Gate,
                        Buffer::Gate,
                        name,
                        block.gate.layer,
                        None,
                        call.head,
                        false,
                    );
                }
                let middle = rows.behind(first->Ok_0);
                a_gemm_flows(middle, Part::Gate, weight, place, tail);
                a_place_is_its_row(call.head, weight.outputs);
                let then = middle.behind(second->Ok_0);
                assert forall|row: int| 0 <= row < call.tokens implies #[trigger] then.of(Buffer::Gate, row)
                    == gates_of(block, call, given, row) by {
                    if row < call.head {
                        assert(then.of(Buffer::Gate, row) == middle.of(Buffer::Gate, row));
                        assert(rows.of(Buffer::Quantized, row) == Value::of(
                            BlockOp::Rotated,
                            first_norm(call, given, row),
                        ));
                    } else {
                        assert(middle.at(Spot::Activations, row - call.head) == rows.at(
                            Spot::Activations,
                            row - call.head,
                        ));
                    }
                }
                assert forall|other: Buffer, row: int|
                    other != Buffer::Gate && other != Buffer::Quantized implies #[trigger] then.of(other, row)
                    == rows.of(other, row) by {
                    assert(then.of(other, row) == middle.of(other, row));
                }
            },
            None => if call.modulated && block.qkv.int8() && block.gate.int8() {
                reveal(Block::quantized_plan);
                a_quantized_layer_flows(
                    rows,
                    Part::Gate,
                    Buffer::Gate,
                    name,
                    block.gate.layer,
                    None,
                    call.tokens,
                    false,
                );
                let then = rows.behind(list);
                assert forall|row: int| 0 <= row < call.tokens implies #[trigger] then.of(Buffer::Gate, row)
                    == gates_of(block, call, given, row) by {
                    assert(rows.of(Buffer::Quantized, row) == Value::of(
                        BlockOp::Rotated,
                        first_norm(call, given, row),
                    ));
                }
            } else {
                a_linear_flows(rows, block, Part::Gate, Buffer::Normalized, Buffer::Gate, call.tokens, call.head);
                let then = rows.behind(list);
                assert forall|row: int| 0 <= row < call.tokens implies #[trigger] then.of(Buffer::Gate, row)
                    == gates_of(block, call, given, row) by {
                    assert(rows.of(Buffer::Normalized, row) == first_norm(call, given, row));
                }
            },
        }
    }
}

/// What the attention leaves.
proof fn attention_flows(rows: Rows, block: Block, call: BlockCall, given: Given)
    requires
        is_told(block, call),
        block.attention_plan(call) is Ok,
        !call.sharded ==> forall|row: int|
            0 <= row < call.tokens ==> #[trigger] rows.of(Buffer::Qkv, row) == projected(
                Part::Qkv,
                block.qkv,
                call.head as int,
                is_fused(block.qkv, call),
                row,
                first_norm(call, given, row),
            ),
        call.sharded ==> forall|row: int|
            0 <= row < call.tokens ==> #[trigger] rows.of(Buffer::Quantized, row) == Value::of(
                BlockOp::Rotated,
                first_norm(call, given, row),
            ),
        block.gated(call) ==> forall|row: int|
            0 <= row < call.tokens ==> #[trigger] rows.of(Buffer::Gate, row) == gates_of(block, call, given, row),
    ensures
        ({
            let then = rows.behind(block.attention_plan(call)->Ok_0);
            &&& forall|row: int|
                0 <= row < call.tokens ==> #[trigger] then.of(Buffer::Attention, row) == attention_of(
                    block,
                    call,
                    given,
                    row,
                )
            &&& forall|row: int| #[trigger] then.of(Buffer::Residual, row) == rows.of(Buffer::Residual, row)
        }),
{
    reveal(Block::attention_plan);
    let list = block.attention_plan(call)->Ok_0;
    behind_few(rows, list);
    let then = rows.behind(list);
    if !call.sharded {
        let attending = call.attending(block.gated(call));
        let prepared = attending != Attending::Dense;
        let ready = rows.after(list[0]);
        let op = BlockOp::Prepared {
            attending: if prepared {
                Some(attending)
            } else {
                None
            },
            rows: call.tokens,
            heads: call.heads,
            pairs: call.pairs,
        };
        let heads = Seq::new(
            call.tokens as nat,
            |other: int|
                Value::of(
                    op,
                    projected(
                        Part::Qkv,
                        block.qkv,
                        call.head as int,
                        is_fused(block.qkv, call),
                        other,
                        first_norm(call, given, other),
                    ),
                ),
        );
        let found = Seq::new(call.tokens as nat, |other: int| ready.of(Buffer::Qkv, other));
        assert forall|other: int| 0 <= other < call.tokens implies found[other] == heads[other] by {
            assert(rows.of(Buffer::Qkv, other) == projected(
                Part::Qkv,
                block.qkv,
                call.head as int,
                is_fused(block.qkv, call),
                other,
                first_norm(call, given, other),
            ));
            assert(ready.of(Buffer::Qkv, other) == Value::of(op, rows.of(Buffer::Qkv, other)));
        }
        assert(found =~= heads);
        if attending == (Attending::Vsa { gated: true }) {
            let gates = Seq::new(call.tokens as nat, |other: int| gates_of(block, call, given, other));
            let held = Seq::new(call.tokens as nat, |other: int| ready.of(Buffer::Gate, other));
            assert forall|other: int| 0 <= other < call.tokens implies held[other] == gates[other] by {
                assert(rows.of(Buffer::Gate, other) == gates_of(block, call, given, other));
                assert(ready.of(Buffer::Gate, other) == rows.of(Buffer::Gate, other));
            }
            assert(held =~= gates);
        }
        assert forall|row: int| #[trigger] then.of(Buffer::Residual, row) == rows.of(Buffer::Residual, row) by {
            assert(ready.of(Buffer::Residual, row) == rows.of(Buffer::Residual, row));
        }
    } else {
        assert forall|row: int| 0 <= row < call.tokens implies #[trigger] then.of(Buffer::Attention, row)
            == attention_of(block, call, given, row) by {
            assert(rows.of(Buffer::Quantized, row) == Value::of(BlockOp::Rotated, first_norm(call, given, row)));
        }
    }
}

/// Whether the rows are those in front of the MLP: the residual without the attention, which is in the delta.
spec fn is_attended(rows: Rows, block: Block, call: BlockCall, given: Given) -> bool {
    forall|row: int|
        0 <= row < call.tokens ==> #[trigger] rows.of(Buffer::Residual, row) == row_in(call, given, row) && rows.of(
            Buffer::Delta,
            row,
        ) == projected(Part::Out, block.out, call.head as int, false, row, attention_of(block, call, given, row))
}

/// Whether the rows are those behind a block.
pub open spec fn is_done(rows: Rows, block: Block, call: BlockCall, given: Given) -> bool {
    forall|row: int|
        0 <= row < call.tokens ==> if call.modulated {
            &&& #[trigger] rows.of(Buffer::Residual, row) == row_between(block, call, given, row)
            &&& rows.of(Buffer::Delta, row) == mlp_of(block, call, given, row)
        } else {
            rows.of(Buffer::Residual, row) == row_between(block, call, given, row).plus(
                mlp_of(block, call, given, row),
            )
        }
}

proof fn a_plain_mlp_flows(rows: Rows, block: Block, call: BlockCall, given: Given)
    requires
        is_told(block, call),
        !is_fused(block.fc1, call),
        is_attended(rows, block, call, given),
        block.mlp_plan(call) is Ok,
    ensures
        is_done(rows.behind(block.mlp_plan(call)->Ok_0), block, call, given),
{
    reveal(Block::mlp_plan);
    let add = BlockStep::AddResidual { rows: call.tokens, gate: Block::own_gate(call) };
    let swiglu = BlockStep::SwiGlu { output: block::at(Buffer::Activated), rows: call.tokens, ffn: call.ffn };
    let last = BlockStep::AddResidual { rows: call.tokens, gate: None };
    let six: Plan = plan::when(!call.modulated, Ok(seq![last]));
    let fc2 = block.linear_plan(
        Part::Fc2,
        block::at(Buffer::Activated),
        block::at(Buffer::Delta),
        call.tokens,
        call.head,
    );
    let five = plan::both(fc2, six);
    let four = plan::both(Ok(seq![swiglu]), five);
    let fc1 = block.linear_plan(
        Part::Fc1,
        block::at(Buffer::Normalized),
        block::at(Buffer::Expanded),
        call.tokens,
        call.head,
    );
    let three = plan::both(fc1, four);
    let norm = block.normalize_plan(Norm::Second, call.tokens, modulation_of(call, 3, 4));
    let two = plan::both(norm, three);
    assert(block.mlp_plan(call) == plan::both(Ok(seq![add]), two));
    behind_plans(rows, Ok(seq![add]), two);
    behind_one(rows, add);
    let added = rows.after(add);
    behind_plans(added, norm, three);
    behind_few(added, norm->Ok_0);
    let normal = added.behind(norm->Ok_0);
    behind_plans(normal, fc1, four);
    a_linear_flows(normal, block, Part::Fc1, Buffer::Normalized, Buffer::Expanded, call.tokens, call.head);
    let expanded = normal.behind(fc1->Ok_0);
    behind_plans(expanded, Ok(seq![swiglu]), five);
    behind_one(expanded, swiglu);
    let activated = expanded.after(swiglu);
    behind_plans(activated, fc2, six);
    a_linear_flows(activated, block, Part::Fc2, Buffer::Activated, Buffer::Delta, call.tokens, call.head);
    let whole = activated.behind(fc2->Ok_0);
    if !call.modulated {
        behind_one(whole, last);
    }
    let then = whole.behind(six->Ok_0);
    assert forall|row: int| 0 <= row < call.tokens implies {
        &&& #[trigger] whole.of(Buffer::Residual, row) == row_between(block, call, given, row)
        &&& whole.of(Buffer::Delta, row) == mlp_of(block, call, given, row)
    } by {
        assert(rows.of(Buffer::Residual, row) == row_in(call, given, row));
        assert(added.of(Buffer::Residual, row) == row_between(block, call, given, row));
        assert(normal.of(Buffer::Residual, row) == added.of(Buffer::Residual, row));
        assert(normal.of(Buffer::Normalized, row) == normed(
            Norm::Second,
            modulation_of(call, 3, 4),
            row_between(block, call, given, row),
        ));
        assert(expanded.of(Buffer::Residual, row) == normal.of(Buffer::Residual, row));
        assert(expanded.of(Buffer::Expanded, row) == projected(
            Part::Fc1,
            block.fc1,
            call.head as int,
            false,
            row,
            normal.of(Buffer::Normalized, row),
        ));
        assert(activated.of(Buffer::Activated, row) == activated_of(block, call, given, row));
        assert(activated.of(Buffer::Residual, row) == expanded.of(Buffer::Residual, row));
        assert(whole.of(Buffer::Residual, row) == activated.of(Buffer::Residual, row));
    }
    assert forall|row: int| 0 <= row < call.tokens implies if call.modulated {
        &&& #[trigger] then.of(Buffer::Residual, row) == row_between(block, call, given, row)
        &&& then.of(Buffer::Delta, row) == mlp_of(block, call, given, row)
    } else {
        then.of(Buffer::Residual, row) == row_between(block, call, given, row).plus(mlp_of(block, call, given, row))
    } by {
        assert(whole.of(Buffer::Residual, row) == row_between(block, call, given, row));
    }
}

/// What the first `count` rows of a fused MLP leave.
proof fn fused_mlp_rows_flow(rows: Rows, block: Block, call: BlockCall, given: Given, count: usize)
    requires
        is_fused(block.fc1, call),
        count <= call.tokens,
        block.fc1.nvfp4 is Some ==> count <= call.head,
        is_attended(rows, block, call, given),
        plan::both(
            block.add_norm_quantize_plan(
                Norm::Second,
                Part::Fc1,
                count,
                Block::own_gate(call),
                Modulation { shift: 3, scale: 4 },
            ),
            block.quantized_plan(Part::Fc1, Buffer::Activated, count, true, true),
        ) is Ok,
    ensures
        ({
            let list = plan::both(
                block.add_norm_quantize_plan(
                    Norm::Second,
                    Part::Fc1,
                    count,
                    Block::own_gate(call),
                    Modulation { shift: 3, scale: 4 },
                ),
                block.quantized_plan(Part::Fc1, Buffer::Activated, count, true, true),
            )->Ok_0;
            let then = rows.behind(list);
            &&& forall|row: int|
                0 <= row < count ==> {
                    &&& #[trigger] then.of(Buffer::Residual, row) == row_between(block, call, given, row)
                    &&& then.of(Buffer::Activated, row) == activated_of(block, call, given, row)
                }
            &&& forall|row: int|
                count <= row ==> #[trigger] then.of(Buffer::Residual, row) == rows.of(Buffer::Residual, row)
            &&& forall|row: int| #[trigger] then.of(Buffer::Delta, row) == rows.of(Buffer::Delta, row)
        }),
{
    reveal(Block::quantized_plan);
    let gate = Block::own_gate(call);
    let modulation = Modulation { shift: 3, scale: 4 };
    let first = block.add_norm_quantize_plan(Norm::Second, Part::Fc1, count, gate, modulation);
    let second = block.quantized_plan(Part::Fc1, Buffer::Activated, count, true, true);
    behind_plans(rows, first, second);
    behind_few(rows, first->Ok_0);
    let middle = rows.behind(first->Ok_0);
    a_quantized_layer_flows(
        middle,
        Part::Fc1,
        Buffer::Activated,
        block.name_of(Part::Fc1),
        block.fc1.layer,
        block.fc1.adapter,
        count,
        true,
    );
    let then = middle.behind(second->Ok_0);
    assert forall|row: int| 0 <= row < count implies {
        &&& #[trigger] then.of(Buffer::Residual, row) == row_between(block, call, given, row)
        &&& then.of(Buffer::Activated, row) == activated_of(block, call, given, row)
    } by {
        assert(rows.of(Buffer::Residual, row) == row_in(call, given, row));
        assert(middle.of(Buffer::Residual, row) == row_between(block, call, given, row));
        assert(middle.of(Buffer::Quantized, row) == Value::of(
            BlockOp::Rotated,
            normed(Norm::Second, Some(modulation), row_between(block, call, given, row)),
        ));
        assert(then.of(Buffer::Residual, row) == middle.of(Buffer::Residual, row));
        assert(then.of(Buffer::Activated, row) == int8_row(
            Part::Fc1,
            block.fc1.layer->0,
            block.fc1.adapter,
            true,
            middle.of(Buffer::Quantized, row),
        ));
    }
    assert forall|row: int| count <= row implies #[trigger] then.of(Buffer::Residual, row) == rows.of(
        Buffer::Residual,
        row,
    ) by {
        assert(then.of(Buffer::Residual, row) == middle.of(Buffer::Residual, row));
    }
    assert forall|row: int| #[trigger] then.of(Buffer::Delta, row) == rows.of(Buffer::Delta, row) by {
        assert(then.of(Buffer::Delta, row) == middle.of(Buffer::Delta, row));
    }
}

/// What the NVFP4 half of an MLP leaves behind the rows INT8 weights have run.
proof fn an_nvfp4_mlp_flows(rows: Rows, block: Block, call: BlockCall, given: Given, weight: Nvfp4Weight)
    requires
        is_told(block, call),
        is_fused(block.fc1, call),
        block.fc1.nvfp4 == Some(weight),
        block.nvfp4_mlp_plan(weight, call) is Ok,
        forall|row: int|
            0 <= row < call.head ==> {
                &&& #[trigger] rows.of(Buffer::Residual, row) == row_between(block, call, given, row)
                &&& rows.of(Buffer::Activated, row) == activated_of(block, call, given, row)
            },
        forall|row: int|
            call.head <= row < call.tokens ==> {
                &&& #[trigger] rows.of(Buffer::Residual, row) == row_in(call, given, row)
                &&& rows.of(Buffer::Delta, row) == projected(
                    Part::Out,
                    block.out,
                    call.head as int,
                    false,
                    row,
                    attention_of(block, call, given, row),
                )
            },
    ensures
        is_done(rows.behind(block.nvfp4_mlp_plan(weight, call)->Ok_0), block, call, given),
{
    reveal(Block::nvfp4_mlp_plan);
    let tail = (call.tokens - call.head) as usize;
    let modulation = Modulation { shift: 3, scale: 4 };
    let norm = block.add_norm_quantize_nvfp4_plan(
        Norm::Second,
        Part::Fc1,
        weight,
        call.head,
        tail,
        Block::own_gate(call),
        modulation,
    );
    let gemm = Block::gemm_plan(Part::Fc1, weight, block::at(Buffer::Expanded), tail);
    let swiglu = BlockStep::SwiGlu {
        output: Place { buffer: Buffer::Activated, offset: (call.head * call.ffn * 2) as usize },
        rows: tail,
        ffn: call.ffn,
    };
    let last: Plan = match block.fc2.nvfp4 {
        None => plan::both(
            Ok(seq![swiglu]),
            block.linear_plan(Part::Fc2, block::at(Buffer::Activated), block::at(Buffer::Delta), call.tokens, 0),
        ),
        Some(down) => plan::both(
            plan::when(
                call.head > 0,
                block::launched(
                    Part::Fc2,
                    block::at(Buffer::Activated),
                    block::at(Buffer::Delta),
                    model::linear_steps(
                        block.name_of(Part::Fc2),
                        block.fc2.layer,
                        call.head,
                        block.fc2.adapter,
                    ),
                ),
            ),
            if block.fc2.history {
                Ok(
                    seq![
                        BlockStep::QuantizeNvfp4 {
                            part: Part::Fc2,
                            input: block::at(Buffer::Expanded),
                            swiglu: true,
                            rows: tail,
                            features: down.features,
                            columns: down.columns,
                        },
                    ] + block::nvfp4_launches(
                        Part::Fc2,
                        Place { buffer: Buffer::Delta, offset: (call.head * down.outputs * 2) as usize },
                        Nvfp4Activations::gemm_steps(down, tail),
                    ),
                )
            } else {
                Err(block.no_history(Part::Fc2))
            },
        ),
    };
    assert(block.nvfp4_mlp_plan(weight, call) == plan::both(norm, plan::both(gemm, last)));
    behind_plans(rows, norm, plan::both(gemm, last));
    behind_few(rows, norm->Ok_0);
    let normal = rows.behind(norm->Ok_0);
    behind_plans(normal, gemm, last);
    a_gemm_flows(normal, Part::Fc1, weight, block::at(Buffer::Expanded), tail);
    let expanded = normal.behind(gemm->Ok_0);
    assert forall|row: int| 0 <= row < call.tokens implies #[trigger] expanded.of(Buffer::Residual, row) == row_between(
        block,
        call,
        given,
        row,
    ) by {
        assert(expanded.of(Buffer::Residual, row) == normal.of(Buffer::Residual, row));
        if row < call.head {
            assert(rows.of(Buffer::Residual, row) == row_between(block, call, given, row));
        } else {
            assert(rows.of(Buffer::Residual, row) == row_in(call, given, row));
        }
    }
    assert forall|row: int| call.head <= row < call.tokens implies #[trigger] expanded.of(
        Buffer::Expanded,
        row - call.head,
    ) == nvfp4_row(
        Part::Fc1,
        weight,
        nvfp4_input(
            Part::Fc1,
            weight,
            true,
            normed(Norm::Second, Some(modulation), row_between(block, call, given, row)),
        ),
    ) by {
        assert(rows.of(Buffer::Residual, row) == row_in(call, given, row));
        assert(normal.of(Buffer::Residual, row) == row_between(block, call, given, row));
        assert(normal.at(Spot::Activations, row - call.head) == nvfp4_input(
            Part::Fc1,
            weight,
            true,
            normed(Norm::Second, Some(modulation), normal.of(Buffer::Residual, call.head + (row - call.head))),
        ));
    }
    assert forall|row: int| 0 <= row < call.head implies #[trigger] expanded.of(Buffer::Activated, row) == activated_of(
        block,
        call,
        given,
        row,
    ) by {
        assert(expanded.of(Buffer::Activated, row) == normal.of(Buffer::Activated, row));
        assert(rows.of(Buffer::Residual, row) == row_between(block, call, given, row));
    }
    an_nvfp4_mlp_ends(expanded, block, call, given, weight, last, swiglu);
}

/// What the second layer of an MLP leaves behind an NVFP4 first layer.
proof fn an_nvfp4_mlp_ends(
    rows: Rows,
    block: Block,
    call: BlockCall,
    given: Given,
    weight: Nvfp4Weight,
    last: Plan,
    swiglu: BlockStep,
)
    requires
        is_told(block, call),
        is_fused(block.fc1, call),
        block.fc1.nvfp4 == Some(weight),
        last is Ok,
        swiglu == (BlockStep::SwiGlu {
            output: Place { buffer: Buffer::Activated, offset: (call.head * call.ffn * 2) as usize },
            rows: (call.tokens - call.head) as usize,
            ffn: call.ffn,
        }),
        last == (match block.fc2.nvfp4 {
            None => plan::both(
                Ok(seq![swiglu]),
                block.linear_plan(Part::Fc2, block::at(Buffer::Activated), block::at(Buffer::Delta), call.tokens, 0),
            ),
            Some(down) => plan::both(
                plan::when(
                    call.head > 0,
                    block::launched(
                        Part::Fc2,
                        block::at(Buffer::Activated),
                        block::at(Buffer::Delta),
                        model::linear_steps(
                            block.name_of(Part::Fc2),
                            block.fc2.layer,
                            call.head,
                            block.fc2.adapter,
                        ),
                    ),
                ),
                if block.fc2.history {
                    Ok(
                        seq![
                            BlockStep::QuantizeNvfp4 {
                                part: Part::Fc2,
                                input: block::at(Buffer::Expanded),
                                swiglu: true,
                                rows: (call.tokens - call.head) as usize,
                                features: down.features,
                                columns: down.columns,
                            },
                        ] + block::nvfp4_launches(
                            Part::Fc2,
                            Place { buffer: Buffer::Delta, offset: (call.head * down.outputs * 2) as usize },
                            Nvfp4Activations::gemm_steps(down, (call.tokens - call.head) as usize),
                        ),
                    )
                } else {
                    Err(block.no_history(Part::Fc2))
                },
            ),
        }),
        forall|row: int|
            0 <= row < call.tokens ==> #[trigger] rows.of(Buffer::Residual, row) == row_between(block, call, given, row),
        forall|row: int|
            call.head <= row < call.tokens ==> #[trigger] rows.of(Buffer::Expanded, row - call.head) == nvfp4_row(
                Part::Fc1,
                weight,
                nvfp4_input(
                    Part::Fc1,
                    weight,
                    true,
                    normed(
                        Norm::Second,
                        Some(Modulation { shift: 3, scale: 4 }),
                        row_between(block, call, given, row),
                    ),
                ),
            ),
        forall|row: int|
            0 <= row < call.head ==> #[trigger] rows.of(Buffer::Activated, row) == activated_of(block, call, given, row),
    ensures
        is_done(rows.behind(last->Ok_0), block, call, given),
{
    let tail = (call.tokens - call.head) as usize;
    match block.fc2.nvfp4 {
        None => {
            let fc2 = block.linear_plan(
                Part::Fc2,
                block::at(Buffer::Activated),
                block::at(Buffer::Delta),
                call.tokens,
                0,
            );
            behind_plans(rows, Ok(seq![swiglu]), fc2);
            behind_one(rows, swiglu);
            let activated = rows.after(swiglu);
            a_linear_flows(activated, block, Part::Fc2, Buffer::Activated, Buffer::Delta, call.tokens, 0);
            let then = activated.behind(fc2->Ok_0);
            if call.head > 0 {
                a_place_is_its_row(call.head, call.ffn);
            } else {
                assert(call.head * call.ffn * 2 == 0) by (nonlinear_arith)
                    requires
                        call.head == 0,
                ;
            }
            assert(row_at((call.head * call.ffn * 2) as usize, call.ffn as int) == call.head);
            assert forall|row: int| 0 <= row < call.tokens implies {
                &&& #[trigger] then.of(Buffer::Residual, row) == row_between(block, call, given, row)
                &&& then.of(Buffer::Delta, row) == mlp_of(block, call, given, row)
            } by {
                assert(activated.of(Buffer::Residual, row) == rows.of(Buffer::Residual, row));
                if row < call.head {
                    assert(activated.of(Buffer::Activated, row) == rows.of(Buffer::Activated, row));
                } else {
                    assert(activated.of(Buffer::Activated, row) == Value::of(
                        BlockOp::SwiGlu { ffn: call.ffn },
                        rows.of(Buffer::Expanded, row - call.head),
                    ));
                }
                assert(activated.of(Buffer::Activated, row) == activated_of(block, call, given, row));
            }
        },
        Some(down) => {
            let first: Plan = plan::when(
                call.head > 0,
                block::launched(
                    Part::Fc2,
                    block::at(Buffer::Activated),
                    block::at(Buffer::Delta),
                    model::linear_steps(block.name_of(Part::Fc2), block.fc2.layer, call.head, block.fc2.adapter),
                ),
            );
            let quantize = BlockStep::QuantizeNvfp4 {
                part: Part::Fc2,
                input: block::at(Buffer::Expanded),
                swiglu: true,
                rows: tail,
                features: down.features,
                columns: down.columns,
            };
            let place = Place { buffer: Buffer::Delta, offset: (call.head * down.outputs * 2) as usize };
            let gemm = block::nvfp4_launches(Part::Fc2, place, Nvfp4Activations::gemm_steps(down, tail));
            let second: Plan = Ok(seq![quantize] + gemm);
            behind_plans(rows, first, second);
            if call.head > 0 {
                a_layer_flows(
                    rows,
                    Part::Fc2,
                    Buffer::Activated,
                    Buffer::Delta,
                    block.name_of(Part::Fc2),
                    block.fc2,
                    call.head,
                );
            }
            let middle = rows.behind(first->Ok_0);
            behind_both(middle, seq![quantize], gemm);
            behind_one(middle, quantize);
            let quantized = middle.after(quantize);
            a_gemm_flows(quantized, Part::Fc2, down, place, tail);
            a_place_is_its_row(call.head, down.outputs);
            let then = quantized.behind(gemm);
            assert(only_writes(middle, rows, Buffer::Delta));
            assert forall|row: int| 0 <= row < call.tokens implies {
                &&& #[trigger] then.of(Buffer::Residual, row) == row_between(block, call, given, row)
                &&& then.of(Buffer::Delta, row) == mlp_of(block, call, given, row)
            } by {
                assert(then.of(Buffer::Residual, row) == quantized.of(Buffer::Residual, row));
                assert(quantized.of(Buffer::Residual, row) == middle.of(Buffer::Residual, row));
                assert(middle.of(Buffer::Residual, row) == rows.of(Buffer::Residual, row));
                if row < call.head {
                    assert(then.of(Buffer::Delta, row) == quantized.of(Buffer::Delta, row));
                    assert(quantized.of(Buffer::Delta, row) == middle.of(Buffer::Delta, row));
                    assert(rows.of(Buffer::Activated, row) == activated_of(block, call, given, row));
                } else {
                    assert(middle.of(Buffer::Expanded, row - call.head) == rows.of(Buffer::Expanded, row - call.head));
                    assert(quantized.at(Spot::Activations, row - call.head) == nvfp4_input(
                        Part::Fc2,
                        down,
                        false,
                        Value::of(
                            BlockOp::SwiGlu { ffn: down.features },
                            middle.of(Buffer::Expanded, row - call.head),
                        ),
                    ));
                }
            }
        },
    }
}

proof fn a_fused_mlp_flows(rows: Rows, block: Block, call: BlockCall, given: Given)
    requires
        is_told(block, call),
        is_fused(block.fc1, call),
        is_attended(rows, block, call, given),
        block.mlp_plan(call) is Ok,
    ensures
        is_done(rows.behind(block.mlp_plan(call)->Ok_0), block, call, given),
{
    reveal(Block::mlp_plan);
    let count = if block.fc1.nvfp4 is Some {
        call.head
    } else {
        call.tokens
    };
    let early = plan::both(
        block.add_norm_quantize_plan(
            Norm::Second,
            Part::Fc1,
            count,
            Block::own_gate(call),
            Modulation { shift: 3, scale: 4 },
        ),
        block.quantized_plan(Part::Fc1, Buffer::Activated, count, true, true),
    );
    let first: Plan = plan::when(count > 0, early);
    let second: Plan = match block.fc1.nvfp4 {
        Some(weight) => block.nvfp4_mlp_plan(weight, call),
        None => block.linear_plan(
            Part::Fc2,
            block::at(Buffer::Activated),
            block::at(Buffer::Delta),
            call.tokens,
            call.head,
        ),
    };
    assert(block.mlp_plan(call) == plan::both(first, second));
    behind_plans(rows, first, second);
    if count > 0 {
        fused_mlp_rows_flow(rows, block, call, given, count);
    }
    let middle = rows.behind(first->Ok_0);
    match block.fc1.nvfp4 {
        Some(weight) => {
            assert forall|row: int| call.head <= row < call.tokens implies {
                &&& #[trigger] middle.of(Buffer::Residual, row) == row_in(call, given, row)
                &&& middle.of(Buffer::Delta, row) == projected(
                    Part::Out,
                    block.out,
                    call.head as int,
                    false,
                    row,
                    attention_of(block, call, given, row),
                )
            } by {
                assert(rows.of(Buffer::Residual, row) == row_in(call, given, row));
                assert(middle.of(Buffer::Residual, row) == rows.of(Buffer::Residual, row));
                assert(middle.of(Buffer::Delta, row) == rows.of(Buffer::Delta, row));
            }
            an_nvfp4_mlp_flows(middle, block, call, given, weight);
        },
        None => {
            a_linear_flows(middle, block, Part::Fc2, Buffer::Activated, Buffer::Delta, call.tokens, call.head);
            let then = middle.behind(second->Ok_0);
            assert forall|row: int| 0 <= row < call.tokens implies {
                &&& #[trigger] then.of(Buffer::Residual, row) == row_between(block, call, given, row)
                &&& then.of(Buffer::Delta, row) == mlp_of(block, call, given, row)
            } by {
                assert(then.of(Buffer::Residual, row) == middle.of(Buffer::Residual, row));
                assert(middle.of(Buffer::Residual, row) == row_between(block, call, given, row));
            }
        },
    }
}

/// The launches of a block leave each row of the residual with the attention on top, gated by the block's own table, and
/// the MLP of that row in the delta, for the next block to add. A block without modulation adds its attention and its
/// MLP as they are. What the block before left in the delta is added once, gated by that block's table, before anything
/// is normalized. So it is for rows through INT8, NVFP4 and BF16 weights alike.
pub proof fn a_block_computes_its_rows(rows: Rows, block: Block, call: BlockCall, given: Given)
    requires
        is_told(block, call),
        begins(rows, call, given),
        block.plan(call) is Ok,
    ensures
        is_done(rows.behind(block.plan(call)->Ok_0), block, call, given),
{
    let project = block.projection_plan(call);
    let gate = block.gate_plan(call);
    let attend = block.attention_plan(call);
    let out = block.linear_plan(
        Part::Out,
        block::at(Buffer::Attention),
        block::at(Buffer::Delta),
        call.tokens,
        call.head,
    );
    let mlp = block.mlp_plan(call);
    assert(block.plan(call) == plan::both(project, plan::both(gate, plan::both(attend, plan::both(out, mlp)))));
    behind_plans(rows, project, plan::both(gate, plan::both(attend, plan::both(out, mlp))));
    if is_fused(block.qkv, call) {
        a_fused_projection_flows(rows, block, call, given);
    } else {
        a_plain_projection_flows(rows, block, call, given);
    }
    let one = rows.behind(project->Ok_0);
    behind_plans(one, gate, plan::both(attend, plan::both(out, mlp)));
    gates_flow(one, block, call, given);
    let two = one.behind(gate->Ok_0);
    behind_plans(two, attend, plan::both(out, mlp));
    if !call.sharded {
        assert forall|row: int| 0 <= row < call.tokens implies #[trigger] two.of(Buffer::Qkv, row) == projected(
            Part::Qkv,
            block.qkv,
            call.head as int,
            is_fused(block.qkv, call),
            row,
            first_norm(call, given, row),
        ) by {
            assert(two.of(Buffer::Qkv, row) == one.of(Buffer::Qkv, row));
        }
    }
    attention_flows(two, block, call, given);
    let three = two.behind(attend->Ok_0);
    behind_plans(three, out, mlp);
    a_linear_flows(three, block, Part::Out, Buffer::Attention, Buffer::Delta, call.tokens, call.head);
    let four = three.behind(out->Ok_0);
    assert forall|row: int| 0 <= row < call.tokens implies #[trigger] four.of(Buffer::Residual, row) == row_in(
        call,
        given,
        row,
    ) && four.of(Buffer::Delta, row) == projected(
        Part::Out,
        block.out,
        call.head as int,
        false,
        row,
        attention_of(block, call, given, row),
    ) by {
        assert(four.of(Buffer::Residual, row) == three.of(Buffer::Residual, row));
        assert(three.of(Buffer::Residual, row) == two.of(Buffer::Residual, row));
        assert(two.of(Buffer::Residual, row) == one.of(Buffer::Residual, row));
        assert(three.of(Buffer::Attention, row) == attention_of(block, call, given, row));
    }
    if is_fused(block.fc1, call) {
        a_fused_mlp_flows(four, block, call, given);
    } else {
        a_plain_mlp_flows(four, block, call, given);
    }
}

} // verus!
