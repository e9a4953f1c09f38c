//! The buffers of a DiT call, sized for one sequence length.
use crate::arithmetic;
use crate::attention::HEAD_DIM;
use crate::block;
use crate::block::{Attending, Block, BlockCall, BlockStep, Buffer, Linear, Part, Place};
use crate::model;
use crate::model::{DType, LinearBuffers};
use crate::nvfp4::{Nvfp4Activations, Nvfp4Step, Nvfp4Weight};
use crate::plan;
use vstd::prelude::*;

verus! {

/// The sizes of a DiT.
#[derive(Clone, Copy, Debug, PartialEq, Eq, Structural)]
pub struct DitConfig {
    pub layers: usize,
    /// Blocks of the text refiner.
    pub refiner_layers: usize,
    pub hidden: usize,
    pub heads: usize,
    pub head_dim: usize,
    pub ffn: usize,
    /// Frequencies of each of the three rotated axes.
    pub rope_frequencies: usize,
    pub video_patch_features: usize,
    pub audio_channels: usize,
}

impl DitConfig {
    /// Values of one token over every head.
    pub open spec fn width(self) -> int {
        self.heads * self.head_dim
    }

    /// Values of one token over every head.
    pub fn inner(&self) -> (inner: usize)
        requires
            self.width() <= usize::MAX,
        ensures
            inner == self.width(),
    {
        self.heads * self.head_dim
    }
}

/// What a workspace is sized for.
#[derive(Clone, Copy, Debug, PartialEq, Eq, Structural)]
pub struct WorkspaceShape {
    pub tokens: usize,
    /// Rows of the gates and up projections, which INT8 MLPs need only for the text tokens as they
    /// write SwiGLU directly.
    pub expanded_rows: usize,
    pub adapter_rank: usize,
    /// Rows the adapters' down projections cover, which a shared-out block runs over the whole
    /// sequence rather than over this rank's rows.
    pub adapter_rows: usize,
    /// Whether the blocks have VSA gates.
    pub gated: bool,
    /// Values per row of the NVFP4 layers' activations, or 0 without NVFP4 layers.
    pub nvfp4_columns: usize,
    /// The largest rank of the NVFP4 layers' adapters.
    pub nvfp4_adapter_rank: usize,
}

/// The bytes of the buffers of a call.
#[derive(Clone, Copy, Debug, PartialEq, Eq, Structural)]
pub struct Workspace {
    pub shape: WorkspaceShape,
    pub residual: usize,
    pub normalized: usize,
    pub projected: usize,
    pub qkv: usize,
    pub attention: usize,
    pub delta: usize,
    pub expanded: usize,
    pub activated: usize,
    pub quantized: usize,
    pub scales: usize,
    /// Intermediate rows of the low-rank adapters.
    pub adapter: usize,
    /// VSA gates of the coarse branch, BF16 `[tokens, heads × 128]`.
    pub gate: Option<usize>,
    /// Inputs of the NVFP4 layers.
    pub nvfp4: Option<Nvfp4Activations>,
}

/// The values of the widest quantized row.
pub open spec fn widest(config: DitConfig) -> int {
    arithmetic::max(arithmetic::max(config.hidden as int, config.width()), config.ffn as int)
}

/// Whether the sizes of a workspace can be counted.
pub open spec fn countable(config: DitConfig, shape: WorkspaceShape) -> bool {
    &&& config.width() * 3 <= usize::MAX
    &&& config.ffn * 2 <= usize::MAX
    &&& shape.tokens * config.hidden * 4 <= usize::MAX
    &&& shape.tokens * (3 * config.width()) * 2 <= usize::MAX
    &&& arithmetic::max(shape.expanded_rows as int, 1) * (2 * config.ffn) * 2 <= usize::MAX
    &&& shape.tokens * config.ffn * 2 <= usize::MAX
    &&& shape.tokens * 4 <= usize::MAX
    &&& arithmetic::max(shape.adapter_rows as int, shape.tokens as int) * arithmetic::max(
        shape.adapter_rank as int,
        1,
    ) * 2 <= usize::MAX
}

impl Workspace {
    /// What every buffer holds.
    pub open spec fn sized(self, config: DitConfig, shape: WorkspaceShape) -> bool {
        let inner = config.width();
        &&& self.shape == shape
        &&& self.residual == shape.tokens * config.hidden * 4
        &&& self.normalized == shape.tokens * config.hidden * 2
        &&& self.projected == shape.tokens * config.hidden * 4
        &&& self.qkv == shape.tokens * (3 * inner) * 2
        &&& self.attention == shape.tokens * inner * 2
        &&& self.delta == shape.tokens * config.hidden * 2
        &&& self.expanded == arithmetic::max(shape.expanded_rows as int, 1) * (2 * config.ffn) * 2
        &&& self.activated == shape.tokens * config.ffn * 2
        &&& self.quantized == shape.tokens * widest(config)
        &&& self.scales == shape.tokens * 4
        &&& self.adapter == arithmetic::max(shape.adapter_rows as int, shape.tokens as int) * arithmetic::max(
            shape.adapter_rank as int,
            1,
        ) * 2
        &&& if shape.gated {
            self.gate matches Some(gate) && gate == shape.tokens * inner * 2
        } else {
            self.gate is None
        }
        &&& self.nvfp4 == (if shape.nvfp4_columns > 0 {
            Some(
                Nvfp4Activations {
                    rows: shape.tokens,
                    columns: shape.nvfp4_columns,
                    adapter_rank: shape.nvfp4_adapter_rank,
                },
            )
        } else {
            None
        })
    }

    pub fn new(config: &DitConfig, shape: WorkspaceShape) -> (workspace: Workspace)
        requires
            countable(*config, shape),
        ensures
            workspace.sized(*config, shape),
    {
        let tokens: usize = shape.tokens;
        let hidden: usize = config.hidden;
        proof {
            sizes_are_counted(*config, shape);
        }
        let inner: usize = config.inner();
        let widest: usize = arithmetic::greatest(arithmetic::greatest(hidden, inner), config.ffn);
        let expanded_rows: usize = arithmetic::greatest(shape.expanded_rows, 1);
        let adapter_rows: usize = arithmetic::greatest(shape.adapter_rows, tokens);
        let adapter_rank: usize = arithmetic::greatest(shape.adapter_rank, 1);
        Workspace {
            shape,
            residual: tokens * hidden * 4,
            normalized: tokens * hidden * 2,
            projected: tokens * hidden * 4,
            qkv: tokens * (3 * inner) * 2,
            attention: tokens * inner * 2,
            delta: tokens * hidden * 2,
            expanded: expanded_rows * (2 * config.ffn) * 2,
            activated: tokens * config.ffn * 2,
            quantized: tokens * widest,
            scales: tokens * 4,
            adapter: adapter_rows * adapter_rank * 2,
            gate: if shape.gated {
                Some(tokens * inner * 2)
            } else {
                None
            },
            nvfp4: if shape.nvfp4_columns > 0 {
                Some(
                    Nvfp4Activations {
                        rows: tokens,
                        columns: shape.nvfp4_columns,
                        adapter_rank: shape.nvfp4_adapter_rank,
                    },
                )
            } else {
                None
            },
        }
    }

    /// The bytes of a buffer.
    pub open spec fn bytes_of(self, buffer: Buffer) -> int {
        match buffer {
            Buffer::Residual => self.residual as int,
            Buffer::Normalized => self.normalized as int,
            Buffer::Projected => self.projected as int,
            Buffer::Qkv => self.qkv as int,
            Buffer::Attention => self.attention as int,
            Buffer::Delta => self.delta as int,
            Buffer::Expanded => self.expanded as int,
            Buffer::Activated => self.activated as int,
            Buffer::Gate => match self.gate {
                Some(gate) => gate as int,
                None => 0,
            },
            Buffer::Quantized => self.quantized as int,
        }
    }

    /// Whether `bytes` bytes from a place on lie in its buffer.
    pub open spec fn covers(self, place: Place, bytes: int) -> bool {
        place.offset + bytes <= self.bytes_of(place.buffer)
    }

    /// The buffers of a linear layer from one of the workspace's into another.
    pub open spec fn linear_buffers(self, input: Buffer, output: Buffer) -> LinearBuffers {
        LinearBuffers {
            input: self.bytes_of(input) as usize,
            output: self.bytes_of(output) as usize,
            quantized: self.quantized,
            scales: self.scales,
            adapter: self.adapter,
        }
    }

    /// Whether an NVFP4 launch stays in its activations and in its output.
    pub open spec fn holds_nvfp4(self, output: Place, step: Nvfp4Step) -> bool {
        &&& self.nvfp4 matches Some(activations)
        &&& match step {
            Nvfp4Step::Alpha { down } => true,
            Nvfp4Step::Product { down, rows, outputs, columns } => {
                &&& activations.holds(rows as int, columns as int)
                &&& if down {
                    outputs <= activations.adapter_rank
                } else {
                    self.covers(output, rows * outputs * 2)
                }
            },
            Nvfp4Step::QuantizeColumns { rows, count, offset, columns } => {
                &&& activations.holds(rows as int, columns as int)
                &&& offset + count <= columns
                &&& count <= activations.adapter_rank
            },
        }
    }

    /// Whether a launch of a block stays inside the buffers it reads and writes.
    pub open spec fn holds(self, config: DitConfig, block: Block, step: BlockStep) -> bool {
        match step {
            BlockStep::AddNormQuantize { norm, rows, gate, modulation, keep } => {
                &&& rows * config.hidden * 4 <= self.residual
                &&& gate is Some ==> rows * config.hidden * 2 <= self.delta
                &&& keep ==> rows * config.hidden * 2 <= self.normalized
                &&& rows * config.hidden <= self.quantized
                &&& rows * 4 <= self.scales
            },
            BlockStep::AddNormQuantizeNvfp4 { norm, part, first, rows, columns, gate, modulation } => {
                &&& (first + rows) * config.hidden * 4 <= self.residual
                &&& gate is Some ==> (first + rows) * config.hidden * 2 <= self.delta
                &&& self.nvfp4 matches Some(activations) && activations.holds(rows as int, columns as int)
            },
            BlockStep::AddResidual { rows, gate } => {
                &&& rows * config.hidden * 4 <= self.residual
                &&& rows * config.hidden * 2 <= self.delta
            },
            BlockStep::Normalize { norm, rows, modulation } => {
                &&& rows * config.hidden * 4 <= self.residual
                &&& rows * config.hidden * 2 <= self.normalized
            },
            BlockStep::Linear { part, input, output, step } => {
                &&& input.offset == 0
                &&& output.offset == 0
                &&& block.linear_of(part).layer matches Some(layer)
                &&& model::stays_inside(step, layer, self.linear_buffers(input.buffer, output.buffer))
            },
            BlockStep::QuantizeNvfp4 { part, input, swiglu, rows, features, columns } => {
                &&& self.covers(
                    input,
                    rows * features * (if swiglu {
                        4int
                    } else {
                        2int
                    }),
                )
                &&& self.nvfp4 matches Some(activations) && activations.holds(rows as int, columns as int)
            },
            BlockStep::Nvfp4 { part, output, step } => self.holds_nvfp4(output, step),
            BlockStep::PrepareInputs { attending, rows, heads, pairs } => rows * (3 * (heads * HEAD_DIM)) * 2
                <= self.qkv,
            BlockStep::QkNormRope { rows, heads, pairs } => rows * (3 * (heads * HEAD_DIM)) * 2 <= self.qkv,
            BlockStep::Attend { attending, prepared, rows, heads } => {
                &&& rows * (3 * (heads * HEAD_DIM)) * 2 <= self.qkv
                &&& rows * (heads * HEAD_DIM) * 2 <= self.attention
                &&& attending == (Attending::Vsa { gated: true }) ==> {
                    self.gate matches Some(gate) && rows * (heads * HEAD_DIM) * 2 <= gate
                }
            },
            BlockStep::Sharded => true,
            BlockStep::SwiGlu { output, rows, ffn } => {
                &&& rows * (2 * ffn) * 2 <= self.expanded
                &&& self.covers(output, rows * ffn * 2)
            },
        }
    }
}

proof fn sizes_are_counted(config: DitConfig, shape: WorkspaceShape)
    requires
        countable(config, shape),
    ensures
        0 <= config.width() <= usize::MAX,
        0 <= shape.tokens * config.hidden * 2 <= shape.tokens * config.hidden * 4,
        0 <= shape.tokens * config.width() * 2 <= shape.tokens * (3 * config.width()) * 2,
        0 <= shape.tokens * widest(config) <= usize::MAX,
{
    let tokens = shape.tokens as int;
    let hidden = config.hidden as int;
    let inner = config.width();
    let ffn = config.ffn as int;
    assert(inner >= 0) by (nonlinear_arith)
        requires
            inner == config.heads * config.head_dim,
    ;
    assert(0 <= tokens * hidden && tokens * hidden * 2 <= tokens * hidden * 4) by (nonlinear_arith)
        requires
            tokens >= 0,
            hidden >= 0,
    ;
    assert(0 <= tokens * inner && tokens * inner * 2 <= tokens * (3 * inner) * 2) by (nonlinear_arith)
        requires
            tokens >= 0,
            inner >= 0,
    ;
    assert(0 <= tokens * ffn <= tokens * ffn * 2) by (nonlinear_arith)
        requires
            tokens >= 0,
            ffn >= 0,
    ;
}

/// The outputs and inputs of a layer of a block.
pub open spec fn part_shape(config: DitConfig, part: Part) -> (int, int) {
    match part {
        Part::Qkv => (3 * config.width(), config.hidden as int),
        Part::Gate => (config.width(), config.hidden as int),
        Part::Out => (config.hidden as int, config.width()),
        Part::Fc1 => (2 * config.ffn, config.hidden as int),
        Part::Fc2 => (config.hidden as int, config.ffn as int),
    }
}

/// Whether a layer has its shape, takes BF16 rows, and finds room for its adapter.
pub open spec fn linear_fits(config: DitConfig, shape: WorkspaceShape, linear: Linear, part: Part) -> bool {
    let (outputs, features) = part_shape(config, part);
    &&& linear.layer matches Some(layer) ==> layer.outputs == outputs && layer.features == features && layer.dtype
        != DType::F32
    &&& linear.adapter matches Some(adapter) ==> {
        &&& adapter.outputs == outputs
        &&& adapter.inputs == features
        &&& adapter.scratch() <= shape.adapter_rank
        &&& adapter.columns matches Some(columns) ==> adapter.rank <= columns
    }
    &&& linear.nvfp4 matches Some(weight) ==> {
        &&& weight.outputs == outputs
        &&& weight.features == features
        &&& weight.valid()
        &&& weight.columns <= shape.nvfp4_columns
        &&& shape.nvfp4_columns > 0
        &&& weight.rank <= shape.nvfp4_adapter_rank
    }
}

pub open spec fn block_fits(config: DitConfig, shape: WorkspaceShape, block: Block) -> bool {
    &&& linear_fits(config, shape, block.qkv, Part::Qkv)
    &&& linear_fits(config, shape, block.gate, Part::Gate)
    &&& linear_fits(config, shape, block.out, Part::Out)
    &&& linear_fits(config, shape, block.fc1, Part::Fc1)
    &&& linear_fits(config, shape, block.fc2, Part::Fc2)
}

/// Whether the block writes the gates and up projections.
pub open spec fn expands(block: Block, call: BlockCall) -> bool {
    !(call.modulated && block.fc1.int8()) || block.fc1.nvfp4 is Some
}

/// Whether a block is called on rows the workspace is sized for.
pub open spec fn call_fits(config: DitConfig, workspace: Workspace, block: Block, call: BlockCall) -> bool {
    &&& call.head <= call.tokens <= workspace.shape.tokens
    &&& call.heads == config.heads
    &&& call.ffn == config.ffn
    &&& call.gate == workspace.gate is Some
    &&& call.activations == workspace.nvfp4
    &&& expands(block, call) ==> call.tokens <= workspace.shape.expanded_rows
}

spec fn sound(config: DitConfig, workspace: Workspace, block: Block, plan: block::Plan) -> bool {
    plan matches Ok(list) ==> forall|i: int|
        0 <= i < list.len() ==> workspace.holds(config, block, #[trigger] list[i])
}

proof fn sound_in_turn(config: DitConfig, workspace: Workspace, block: Block, one: block::Plan, other: block::Plan)
    requires
        sound(config, workspace, block, one),
        sound(config, workspace, block, other),
    ensures
        sound(config, workspace, block, plan::both(one, other)),
{
}

/// Fewer rows of a width take no more than all of them.
proof fn rows_fit(rows: int, tokens: int, width: int, bytes: int)
    requires
        0 <= rows <= tokens,
        width >= 0,
        bytes >= 0,
    ensures
        0 <= rows * width <= tokens * width,
        0 <= rows * width * bytes <= tokens * width * bytes,
{
    assert(0 <= rows * width <= tokens * width) by (nonlinear_arith)
        requires
            0 <= rows <= tokens,
            width >= 0,
    ;
    assert(0 <= rows * width * bytes <= tokens * width * bytes) by (nonlinear_arith)
        requires
            0 <= rows * width <= tokens * width,
            bytes >= 0,
    ;
}

/// The rows before and after the first `head` ones lie one behind the other.
proof fn split_rows_fit(head: int, rows: int, tokens: int, width: int, bytes: int)
    requires
        0 <= head <= rows <= tokens,
        width >= 0,
        bytes >= 0,
    ensures
        0 <= head * width * bytes,
        0 <= (rows - head) * width * bytes,
        head * width * bytes + (rows - head) * width * bytes <= tokens * width * bytes,
{
    rows_fit(rows, tokens, width, bytes);
    rows_fit(head, rows, width, bytes);
    rows_fit(rows - head, rows, width, bytes);
    assert(head * width * bytes + (rows - head) * width * bytes == rows * width * bytes) by (nonlinear_arith);
}

proof fn gemm_is_sound(
    config: DitConfig,
    workspace: Workspace,
    block: Block,
    part: Part,
    weight: Nvfp4Weight,
    output: Place,
    rows: usize,
)
    requires
        workspace.sized(config, workspace.shape),
        linear_fits(config, workspace.shape, block.linear_of(part), part),
        block.linear_of(part).nvfp4 == Some(weight),
        rows <= workspace.shape.tokens,
        workspace.covers(output, rows * weight.outputs * 2),
    ensures
        sound(config, workspace, block, Block::gemm_plan(part, weight, output, rows)),
{
    let steps = Nvfp4Activations::gemm_steps(weight, rows);
    let list = block::nvfp4_launches(part, output, steps);
    assert forall|i: int| 0 <= i < list.len() implies workspace.holds(config, block, #[trigger] list[i]) by {
        assert(list[i] == BlockStep::Nvfp4 { part, output, step: steps[i] });
        assert(workspace.holds_nvfp4(output, steps[i]));
    }
}

/// The launches of a linear layer on `rows` rows of its BF16 input.
proof fn rows_are_sound(
    config: DitConfig,
    workspace: Workspace,
    block: Block,
    part: Part,
    input: Buffer,
    output: Buffer,
    rows: usize,
    capacity: int,
    room: int,
)
    requires
        workspace.sized(config, workspace.shape),
        linear_fits(config, workspace.shape, block.linear_of(part), part),
        rows <= capacity,
        rows <= room,
        rows <= workspace.shape.tokens,
        workspace.bytes_of(input) == capacity * part_shape(config, part).1 * 2,
        workspace.bytes_of(output) == room * part_shape(config, part).0 * 2,
    ensures
        sound(
            config,
            workspace,
            block,
            block::launched(
                part,
                block::at(input),
                block::at(output),
                model::linear_steps(
                    block.name_of(part),
                    block.linear_of(part).layer,
                    rows,
                    block.linear_of(part).adapter,
                ),
            ),
        ),
{
    let linear = block.linear_of(part);
    let name = block.name_of(part);
    let (outputs, features) = part_shape(config, part);
    let expected = model::linear_steps(name, linear.layer, rows, linear.adapter);
    if expected is Ok {
        let layer = linear.layer->0;
        let buffers = workspace.linear_buffers(input, output);
        rows_fit(rows as int, capacity, features, 2);
        rows_fit(rows as int, room, outputs, 2);
        quantized_rows_fit(config, workspace, rows as int, features);
        if let Some(adapter) = linear.adapter {
            adapter_rows_fit(config, workspace, rows as int, adapter.scratch() as int);
        }
        assert(model::hold_rows(buffers, layer, rows as int, linear.adapter));
        let steps = expected->Ok_0;
        let list = block::linear_launches(part, block::at(input), block::at(output), steps);
        assert forall|i: int| 0 <= i < list.len() implies workspace.holds(config, block, #[trigger] list[i]) by {
            model::a_linear_layer_stays_in_its_buffers(name, layer, rows, linear.adapter, buffers, i);
        }
    }
}

proof fn quantized_rows_fit(config: DitConfig, workspace: Workspace, rows: int, features: int)
    requires
        workspace.sized(config, workspace.shape),
        0 <= rows <= workspace.shape.tokens,
        0 <= features <= widest(config),
    ensures
        rows * features <= workspace.quantized,
        rows * 4 <= workspace.scales,
{
    arithmetic::products_grow(rows, features, workspace.shape.tokens as int, widest(config));
}

proof fn adapter_rows_fit(config: DitConfig, workspace: Workspace, rows: int, columns: int)
    requires
        workspace.sized(config, workspace.shape),
        0 <= rows <= workspace.shape.tokens,
        0 <= columns <= workspace.shape.adapter_rank,
    ensures
        rows * columns * 2 <= workspace.adapter,
{
    arithmetic::products_grow(
        rows,
        columns,
        arithmetic::max(workspace.shape.adapter_rows as int, workspace.shape.tokens as int),
        arithmetic::max(workspace.shape.adapter_rank as int, 1),
    );
}

/// The launches of a linear layer into a buffer with room for the same rows.
proof fn linear_is_sound(
    config: DitConfig,
    workspace: Workspace,
    block: Block,
    part: Part,
    input: Buffer,
    output: Buffer,
    rows: usize,
    head: usize,
    capacity: int,
)
    requires
        workspace.sized(config, workspace.shape),
        linear_fits(config, workspace.shape, block.linear_of(part), part),
        head <= rows <= capacity,
        rows <= workspace.shape.tokens,
        workspace.bytes_of(input) == capacity * part_shape(config, part).1 * 2,
        workspace.bytes_of(output) == capacity * part_shape(config, part).0 * 2,
    ensures
        sound(
            config,
            workspace,
            block,
            block.linear_plan(part, block::at(input), block::at(output), rows, head),
        ),
{
    linear_into_is_sound(config, workspace, block, part, input, output, rows, head, capacity, capacity);
}

/// The launches of a linear layer, of which NVFP4 takes the rows behind the first `head` ones.
proof fn linear_into_is_sound(
    config: DitConfig,
    workspace: Workspace,
    block: Block,
    part: Part,
    input: Buffer,
    output: Buffer,
    rows: usize,
    head: usize,
    capacity: int,
    room: int,
)
    requires
        workspace.sized(config, workspace.shape),
        linear_fits(config, workspace.shape, block.linear_of(part), part),
        head <= rows <= capacity,
        rows <= room,
        rows <= workspace.shape.tokens,
        workspace.bytes_of(input) == capacity * part_shape(config, part).1 * 2,
        workspace.bytes_of(output) == room * part_shape(config, part).0 * 2,
    ensures
        sound(
            config,
            workspace,
            block,
            block.linear_plan(part, block::at(input), block::at(output), rows, head),
        ),
{
    reveal(Block::linear_plan);
    let linear = block.linear_of(part);
    let (outputs, features) = part_shape(config, part);
    match linear.nvfp4 {
        None => {
            rows_are_sound(config, workspace, block, part, input, output, rows, capacity, room);
        },
        Some(weight) => {
            let tail = (rows - head) as usize;
            let from = Place { buffer: input, offset: (head * weight.features * 2) as usize };
            let into = Place { buffer: output, offset: (head * weight.outputs * 2) as usize };
            let first = plan::when(
                head > 0,
                block::launched(
                    part,
                    block::at(input),
                    block::at(output),
                    model::linear_steps(block.name_of(part), linear.layer, head, linear.adapter),
                ),
            );
            assert(sound(config, workspace, block, first)) by {
                rows_are_sound(config, workspace, block, part, input, output, head, capacity, room);
            }
            let quantize: block::Plan = Ok(
                seq![
                    BlockStep::QuantizeNvfp4 {
                        part,
                        input: from,
                        swiglu: false,
                        rows: tail,
                        features: weight.features,
                        columns: weight.columns,
                    },
                ],
            );
            split_rows_fit(head as int, rows as int, capacity, features, 2);
            split_rows_fit(head as int, rows as int, room, outputs, 2);
            assert(sound(config, workspace, block, quantize));
            let product = Block::gemm_plan(part, weight, into, tail);
            gemm_is_sound(config, workspace, block, part, weight, into, tail);
            sound_in_turn(config, workspace, block, quantize, product);
            sound_in_turn(config, workspace, block, first, plan::both(quantize, product));
        },
    }
}

/// The launches of an INT8 layer on rows that are already quantized.
proof fn quantized_is_sound(
    config: DitConfig,
    workspace: Workspace,
    block: Block,
    part: Part,
    output: Buffer,
    rows: usize,
    adapted: bool,
    swiglu: bool,
)
    requires
        workspace.sized(config, workspace.shape),
        linear_fits(config, workspace.shape, block.linear_of(part), part),
        rows <= workspace.shape.tokens,
        workspace.bytes_of(output) == workspace.shape.tokens * (if swiglu {
            part_shape(config, part).0 / 2
        } else {
            part_shape(config, part).0
        }) * 2,
    ensures
        sound(config, workspace, block, block.quantized_plan(part, output, rows, adapted, swiglu)),
{
    reveal(Block::quantized_plan);
    let linear = block.linear_of(part);
    let name = block.name_of(part);
    let (outputs, features) = part_shape(config, part);
    let adapter = if adapted {
        linear.adapter
    } else {
        None
    };
    let expected = model::quantized_steps(name, linear.layer, rows, adapter, swiglu);
    if expected is Ok {
        let layer = linear.layer->0;
        let written = if swiglu {
            outputs / 2
        } else {
            outputs
        };
        rows_fit(rows as int, workspace.shape.tokens as int, written, 2);
        quantized_rows_fit(config, workspace, rows as int, features);
        if let Some(adapter) = adapter {
            adapter_rows_fit(config, workspace, rows as int, adapter.scratch() as int);
        }
        let steps = expected->Ok_0;
        let list = block::linear_launches(part, block::at(Buffer::Quantized), block::at(output), steps);
        assert forall|i: int| 0 <= i < list.len() implies workspace.holds(config, block, #[trigger] list[i]) by {
            assert(model::stays_inside(steps[i], layer, workspace.linear_buffers(Buffer::Quantized, output)));
        }
    }
}

proof fn norm_quantize_is_sound(
    config: DitConfig,
    workspace: Workspace,
    block: Block,
    norm: block::Norm,
    part: Part,
    rows: usize,
    gate: Option<block::Gating>,
    modulation: block::Modulation,
)
    requires
        workspace.sized(config, workspace.shape),
        rows <= workspace.shape.tokens,
    ensures
        sound(config, workspace, block, block.add_norm_quantize_plan(norm, part, rows, gate, modulation)),
{
    let tokens = workspace.shape.tokens as int;
    rows_fit(rows as int, tokens, config.hidden as int, 4);
    rows_fit(rows as int, tokens, config.hidden as int, 2);
    quantized_rows_fit(config, workspace, rows as int, config.hidden as int);
}

proof fn norm_quantize_nvfp4_is_sound(
    config: DitConfig,
    workspace: Workspace,
    block: Block,
    norm: block::Norm,
    part: Part,
    weight: Nvfp4Weight,
    head: usize,
    rows: usize,
    gate: Option<block::Gating>,
    modulation: block::Modulation,
)
    requires
        workspace.sized(config, workspace.shape),
        linear_fits(config, workspace.shape, block.linear_of(part), part),
        block.linear_of(part).nvfp4 == Some(weight),
        head <= rows <= workspace.shape.tokens,
    ensures
        sound(
            config,
            workspace,
            block,
            block.add_norm_quantize_nvfp4_plan(
                norm,
                part,
                weight,
                head,
                (rows - head) as usize,
                gate,
                modulation,
            ),
        ),
{
    let tokens = workspace.shape.tokens as int;
    rows_fit(rows as int, tokens, config.hidden as int, 4);
    rows_fit(rows as int, tokens, config.hidden as int, 2);
}

proof fn projection_is_sound(config: DitConfig, workspace: Workspace, block: Block, call: BlockCall)
    requires
        workspace.sized(config, workspace.shape),
        block_fits(config, workspace.shape, block),
        call_fits(config, workspace, block, call),
    ensures
        sound(config, workspace, block, block.projection_plan(call)),
{
    let tokens = workspace.shape.tokens as int;
    if call.modulated && block.qkv.int8() {
        reveal(Block::fused_projection_plan);
        let gate = Block::pending_gate(call);
        let modulation = block::Modulation { shift: 0, scale: 1 };
        let rows = if block.qkv.nvfp4 is Some {
            call.head
        } else {
            call.tokens
        };
        norm_quantize_is_sound(config, workspace, block, block::Norm::First, Part::Qkv, rows, gate, modulation);
        quantized_is_sound(config, workspace, block, Part::Qkv, Buffer::Qkv, rows, true, false);
        if let Some(weight) = block.qkv.nvfp4 {
            norm_quantize_nvfp4_is_sound(
                config,
                workspace,
                block,
                block::Norm::First,
                Part::Qkv,
                weight,
                call.head,
                call.tokens,
                gate,
                modulation,
            );
            split_rows_fit(call.head as int, call.tokens as int, tokens, weight.outputs as int, 2);
            let into = Place { buffer: Buffer::Qkv, offset: (call.head * weight.outputs * 2) as usize };
            gemm_is_sound(config, workspace, block, Part::Qkv, weight, into, (call.tokens - call.head) as usize);
        }
    } else {
        reveal(Block::plain_projection_plan);
        rows_fit(call.tokens as int, tokens, config.hidden as int, 4);
        rows_fit(call.tokens as int, tokens, config.hidden as int, 2);
        linear_is_sound(
            config,
            workspace,
            block,
            Part::Qkv,
            Buffer::Normalized,
            Buffer::Qkv,
            call.tokens,
            call.head,
            tokens,
        );
    }
}

proof fn gate_is_sound(config: DitConfig, workspace: Workspace, block: Block, call: BlockCall)
    requires
        workspace.sized(config, workspace.shape),
        block_fits(config, workspace.shape, block),
        call_fits(config, workspace, block, call),
    ensures
        sound(config, workspace, block, block.gate_plan(call)),
{
    reveal(Block::gate_plan);
    let tokens = workspace.shape.tokens as int;
    if block.gated(call) {
        if let Some(weight) = block.gate.nvfp4 {
            quantized_is_sound(config, workspace, block, Part::Gate, Buffer::Gate, call.head, false, false);
            split_rows_fit(call.head as int, call.tokens as int, tokens, weight.outputs as int, 2);
            let into = Place { buffer: Buffer::Gate, offset: (call.head * weight.outputs * 2) as usize };
            gemm_is_sound(config, workspace, block, Part::Gate, weight, into, (call.tokens - call.head) as usize);
        } else {
            quantized_is_sound(config, workspace, block, Part::Gate, Buffer::Gate, call.tokens, false, false);
            linear_is_sound(
                config,
                workspace,
                block,
                Part::Gate,
                Buffer::Normalized,
                Buffer::Gate,
                call.tokens,
                call.head,
                tokens,
            );
        }
    }
}

proof fn attention_is_sound(config: DitConfig, workspace: Workspace, block: Block, call: BlockCall)
    requires
        config.head_dim == HEAD_DIM,
        workspace.sized(config, workspace.shape),
        call_fits(config, workspace, block, call),
    ensures
        sound(config, workspace, block, block.attention_plan(call)),
{
    reveal(Block::attention_plan);
    let tokens = workspace.shape.tokens as int;
    let inner = config.width();
    assert(inner >= 0) by (nonlinear_arith)
        requires
            inner == config.heads * config.head_dim,
    ;
    rows_fit(call.tokens as int, tokens, 3 * inner, 2);
    rows_fit(call.tokens as int, tokens, inner, 2);
}

proof fn nvfp4_mlp_is_sound(
    config: DitConfig,
    workspace: Workspace,
    block: Block,
    weight: Nvfp4Weight,
    call: BlockCall,
)
    requires
        workspace.sized(config, workspace.shape),
        block_fits(config, workspace.shape, block),
        call_fits(config, workspace, block, call),
        block.fc1.nvfp4 == Some(weight),
    ensures
        sound(config, workspace, block, block.nvfp4_mlp_plan(weight, call)),
{
    reveal(Block::nvfp4_mlp_plan);
    let tokens = workspace.shape.tokens as int;
    let tail = (call.tokens - call.head) as usize;
    let ffn = config.ffn as int;
    norm_quantize_nvfp4_is_sound(
        config,
        workspace,
        block,
        block::Norm::Second,
        Part::Fc1,
        weight,
        call.head,
        call.tokens,
        Block::own_gate(call),
        block::Modulation { shift: 3, scale: 4 },
    );
    rows_fit(tail as int, arithmetic::max(workspace.shape.expanded_rows as int, 1), 2 * ffn, 2);
    gemm_is_sound(config, workspace, block, Part::Fc1, weight, block::at(Buffer::Expanded), tail);
    split_rows_fit(call.head as int, call.tokens as int, tokens, ffn, 2);
    match block.fc2.nvfp4 {
        None => {
            linear_is_sound(
                config,
                workspace,
                block,
                Part::Fc2,
                Buffer::Activated,
                Buffer::Delta,
                call.tokens,
                0,
                tokens,
            );
        },
        Some(down) => {
            rows_are_sound(
                config,
                workspace,
                block,
                Part::Fc2,
                Buffer::Activated,
                Buffer::Delta,
                call.head,
                tokens,
                tokens,
            );
            split_rows_fit(call.head as int, call.tokens as int, tokens, down.outputs as int, 2);
            let into = Place { buffer: Buffer::Delta, offset: (call.head * down.outputs * 2) as usize };
            gemm_is_sound(config, workspace, block, Part::Fc2, down, into, tail);
            assert(tail * ffn * 4 == tail * (2 * ffn) * 2) by (nonlinear_arith);
        },
    }
}

proof fn mlp_is_sound(config: DitConfig, workspace: Workspace, block: Block, call: BlockCall)
    requires
        workspace.sized(config, workspace.shape),
        block_fits(config, workspace.shape, block),
        call_fits(config, workspace, block, call),
    ensures
        sound(config, workspace, block, block.mlp_plan(call)),
{
    reveal(Block::mlp_plan);
    let tokens = workspace.shape.tokens as int;
    let ffn = config.ffn as int;
    linear_is_sound(
        config,
        workspace,
        block,
        Part::Fc2,
        Buffer::Activated,
        Buffer::Delta,
        call.tokens,
        call.head,
        tokens,
    );
    if call.modulated && block.fc1.int8() {
        let rows = if block.fc1.nvfp4 is Some {
            call.head
        } else {
            call.tokens
        };
        norm_quantize_is_sound(
            config,
            workspace,
            block,
            block::Norm::Second,
            Part::Fc1,
            rows,
            Block::own_gate(call),
            block::Modulation { shift: 3, scale: 4 },
        );
        quantized_is_sound(config, workspace, block, Part::Fc1, Buffer::Activated, rows, true, true);
        if let Some(weight) = block.fc1.nvfp4 {
            nvfp4_mlp_is_sound(config, workspace, block, weight, call);
        }
    } else {
        let expanded = arithmetic::max(workspace.shape.expanded_rows as int, 1);
        rows_fit(call.tokens as int, tokens, config.hidden as int, 4);
        rows_fit(call.tokens as int, tokens, config.hidden as int, 2);
        rows_fit(call.tokens as int, tokens, ffn, 2);
        rows_fit(call.tokens as int, expanded, 2 * ffn, 2);
        expanding_is_sound(config, workspace, block, call);
    }
}

/// The gates and up projections of a block that writes them.
proof fn expanding_is_sound(config: DitConfig, workspace: Workspace, block: Block, call: BlockCall)
    requires
        workspace.sized(config, workspace.shape),
        block_fits(config, workspace.shape, block),
        call_fits(config, workspace, block, call),
        expands(block, call),
    ensures
        sound(
            config,
            workspace,
            block,
            block.linear_plan(
                Part::Fc1,
                block::at(Buffer::Normalized),
                block::at(Buffer::Expanded),
                call.tokens,
                call.head,
            ),
        ),
{
    linear_into_is_sound(
        config,
        workspace,
        block,
        Part::Fc1,
        Buffer::Normalized,
        Buffer::Expanded,
        call.tokens,
        call.head,
        workspace.shape.tokens as int,
        arithmetic::max(workspace.shape.expanded_rows as int, 1),
    );
}

/// Every launch of a block stays inside the buffers it reads and writes, in a workspace that was made for
/// its rows, its adapters and its NVFP4 layers.
pub proof fn a_block_stays_in_its_workspace(
    config: DitConfig,
    workspace: Workspace,
    block: Block,
    call: BlockCall,
    step: int,
)
    requires
        config.head_dim == HEAD_DIM,
        workspace.sized(config, workspace.shape),
        block_fits(config, workspace.shape, block),
        call_fits(config, workspace, block, call),
        block.plan(call) is Ok,
        0 <= step < block.plan(call)->Ok_0.len(),
    ensures
        workspace.holds(config, block, block.plan(call)->Ok_0[step]),
{
    projection_is_sound(config, workspace, block, call);
    gate_is_sound(config, workspace, block, call);
    attention_is_sound(config, workspace, block, call);
    linear_is_sound(
        config,
        workspace,
        block,
        Part::Out,
        Buffer::Attention,
        Buffer::Delta,
        call.tokens,
        call.head,
        workspace.shape.tokens as int,
    );
    mlp_is_sound(config, workspace, block, call);
    assert(sound(config, workspace, block, block.plan(call)));
}

} // verus!
