//! The launches of one transformer block of the DiT or of its text refiner.
//!
//! The residual stream stays in FP32. Linear layers take BF16 inputs and run through the INT8
//! ConvRot GEMM for quantized weights and through cuBLASLt for BF16 and FP32 weights. NVFP4 layers
//! run the rows after the first `head` ones, and their INT8 weights run those.
use crate::arithmetic;
use crate::model;
use crate::model::{DType, Error, Layer, LinearStep, LowRank};
use crate::nvfp4::{Nvfp4Activations, Nvfp4Step, Nvfp4Weight};
use crate::plan;
use vstd::prelude::*;

verus! {

/// Block modulation vectors per row: shift, scale and gate for attention, then for the MLP.
pub const BLOCK_CHUNKS: usize = 6;

/// The chunk of the block modulation that gates the MLP output.
pub const MLP_GATE_CHUNK: usize = 5;

/// The buffers of a call that linear layers and normalizations read and write.
#[derive(Clone, Copy, Debug, PartialEq, Eq, Structural)]
pub enum Buffer {
    Residual,
    Normalized,
    Projected,
    Qkv,
    Attention,
    Delta,
    Expanded,
    Activated,
    Gate,
    /// The rows in the quantization buffers.
    Quantized,
}

/// A place in a buffer, in bytes.
#[derive(Clone, Copy, Debug, PartialEq, Eq, Structural)]
pub struct Place {
    pub buffer: Buffer,
    pub offset: usize,
}

/// The linear layers of a block.
#[derive(Clone, Copy, Debug, PartialEq, Eq, Structural)]
pub enum Part {
    Qkv,
    /// The gates of VSA's coarse branch.
    Gate,
    Out,
    Fc1,
    Fc2,
}

impl Part {
    /// What follows the block's prefix in the layer's name.
    pub open spec fn letters(self) -> Seq<char> {
        match self {
            Part::Qkv => ".attn.qkv_proj"@,
            Part::Gate => ".attn.to_gate_compress"@,
            Part::Out => ".attn.out_proj"@,
            Part::Fc1 => ".mlp.fc1"@,
            Part::Fc2 => ".mlp.fc2"@,
        }
    }

    /// What follows the block's prefix in the layer's name.
    pub fn suffix(self) -> (suffix: &'static str)
        ensures
            suffix@ == self.letters(),
    {
        match self {
            Part::Qkv => ".attn.qkv_proj",
            Part::Gate => ".attn.to_gate_compress",
            Part::Out => ".attn.out_proj",
            Part::Fc1 => ".mlp.fc1",
            Part::Fc2 => ".mlp.fc2",
        }
    }
}

/// The normalizations of a block: before its attention and before its MLP.
#[derive(Clone, Copy, Debug, PartialEq, Eq, Structural)]
pub enum Norm {
    First,
    Second,
}

/// The modulation table of the block itself, or of the block that left its MLP output.
#[derive(Clone, Copy, Debug, PartialEq, Eq, Structural)]
pub enum Table {
    Own,
    Pending,
}

/// The chunk of a modulation table that gates a delta.
#[derive(Clone, Copy, Debug, PartialEq, Eq, Structural)]
pub struct Gating {
    pub table: Table,
    pub chunk: usize,
}

/// The chunks of the block's modulation table that shift and scale normalized rows.
#[derive(Clone, Copy, Debug, PartialEq, Eq, Structural)]
pub struct Modulation {
    pub shift: usize,
    pub scale: usize,
}

/// Block-sparse attention.
#[derive(Clone, Copy, Debug, PartialEq, Eq, Structural)]
pub enum Sparse {
    Sol,
    Vsa,
}

/// What attention runs on the rows of `qkv`.
#[derive(Clone, Copy, Debug, PartialEq, Eq, Structural)]
pub enum Attending {
    Dense,
    DenseQuantized,
    Sol,
    /// With the gates of its coarse branch, or without.
    Vsa { gated: bool },
}

/// One launch of a block.
#[allow(inconsistent_fields)]
#[derive(Clone, Copy, Debug, PartialEq, Eq, Structural)]
pub enum BlockStep {
    /// Adds the delta to the residual where `gate` names a chunk for it, normalizes the residual and
    /// quantizes it for an INT8 layer. The BF16 rows stay in `normalized` where `keep` says so.
    AddNormQuantize { norm: Norm, rows: usize, gate: Option<Gating>, modulation: Modulation, keep: bool },
    /// The same for the NVFP4 layer `part`, on `rows` rows from `first` on.
    AddNormQuantizeNvfp4 {
        norm: Norm,
        part: Part,
        first: usize,
        rows: usize,
        columns: usize,
        gate: Option<Gating>,
        modulation: Modulation,
    },
    /// Adds the delta to the residual, gated or not.
    AddResidual { rows: usize, gate: Option<Gating> },
    /// Normalizes the residual into `normalized`.
    Normalize { norm: Norm, rows: usize, modulation: Option<Modulation> },
    Linear { part: Part, input: Place, output: Place, step: LinearStep },
    /// Quantizes rows of an NVFP4 layer's input, or their SwiGLU, into its activations.
    QuantizeNvfp4 { part: Part, input: Place, swiglu: bool, rows: usize, features: usize, columns: usize },
    Nvfp4 { part: Part, output: Place, step: Nvfp4Step },
    /// Normalizes and rotates q and k, and makes what the attention reads of them.
    PrepareInputs { attending: Attending, rows: usize, heads: usize, pairs: usize },
    /// Normalizes and rotates q and k in place.
    QkNormRope { rows: usize, heads: usize, pairs: usize },
    Attend { attending: Attending, prepared: bool, rows: usize, heads: usize },
    /// Attention over the whole sequence with the heads of one rank.
    Sharded,
    /// `activated = silu(gate) · up` of the gates and up projections in `expanded`.
    SwiGlu { output: Place, rows: usize, ffn: usize },
}

/// The launches of a block, or why there are none.
pub type Plan = plan::Plan<BlockStep>;

/// What is known of one linear layer of a block.
#[derive(Clone, Copy, Debug, PartialEq, Eq, Structural)]
pub struct Linear {
    pub layer: Option<Layer>,
    pub adapter: Option<LowRank>,
    /// The NVFP4 version of the layer, with its adapter.
    pub nvfp4: Option<Nvfp4Weight>,
    /// Whether there is a history of its NVFP4 input's tensor scales.
    pub history: bool,
}

impl Linear {
    pub open spec fn int8(self) -> bool {
        self.layer matches Some(layer) && layer.dtype == DType::I8
    }

    fn is_int8(&self) -> (int8: bool)
        ensures
            int8 == self.int8(),
    {
        match &self.layer {
            Some(layer) => layer.dtype == DType::I8,
            None => false,
        }
    }

    /// Whether its adapter reads the BF16 input.
    pub open spec fn keeps_input(self) -> bool {
        self.adapter matches Some(adapter) && adapter.columns is None
    }
}

/// What is known of a block.
pub struct Block {
    pub prefix: String,
    pub norm1: bool,
    pub norm2: bool,
    pub query_norm: bool,
    pub key_norm: bool,
    pub qkv: Linear,
    pub gate: Linear,
    pub out: Linear,
    pub fc1: Linear,
    pub fc2: Linear,
}

/// How a block is called.
#[derive(Clone, Copy, Debug, PartialEq, Eq, Structural)]
pub struct BlockCall {
    pub tokens: usize,
    /// The rows NVFP4 layers leave to their INT8 weights.
    pub head: usize,
    pub heads: usize,
    /// Rotated pairs per head.
    pub pairs: usize,
    pub ffn: usize,
    pub modulated: bool,
    /// Whether the block before left its MLP output in `delta`.
    pub pending: bool,
    pub sparse: Option<Sparse>,
    /// Whether there is a workspace of quantized attention.
    pub quantized: bool,
    pub sharded: bool,
    /// Whether there is a buffer of VSA gates.
    pub gate: bool,
    pub activations: Option<Nvfp4Activations>,
}

impl BlockCall {
    /// Whether the NVFP4 version of a layer finds its buffers, and its rows have places.
    pub open spec fn serves(self, linear: Linear) -> bool {
        linear.nvfp4 matches Some(weight) ==> {
            &&& self.activations matches Some(activations)
            &&& activations.holds(self.tokens - self.head, weight.columns as int)
            &&& weight.rank <= activations.adapter_rank
            &&& self.head * weight.features * 2 <= usize::MAX
            &&& self.head * weight.outputs * 2 <= usize::MAX
        }
    }

    /// Whether the block has what its NVFP4 layers need.
    pub open spec fn serves_all(self, block: Block) -> bool {
        &&& self.head <= self.tokens
        &&& self.head * self.ffn * 2 <= usize::MAX
        &&& self.serves(block.qkv)
        &&& self.serves(block.gate)
        &&& self.serves(block.out)
        &&& self.serves(block.fc1)
        &&& self.serves(block.fc2)
    }

    /// What the attention of the block runs.
    pub open spec fn attending(self, gated: bool) -> Attending {
        match self.sparse {
            Some(Sparse::Sol) => Attending::Sol,
            Some(Sparse::Vsa) => Attending::Vsa { gated },
            None => if self.quantized && self.modulated {
                Attending::DenseQuantized
            } else {
                Attending::Dense
            },
        }
    }
}

pub open spec fn linear_launches(part: Part, input: Place, output: Place, steps: Seq<LinearStep>) -> Seq<BlockStep> {
    Seq::new(steps.len(), |i: int| BlockStep::Linear { part, input, output, step: steps[i] })
}

pub open spec fn nvfp4_launches(part: Part, output: Place, steps: Seq<Nvfp4Step>) -> Seq<BlockStep> {
    Seq::new(steps.len(), |i: int| BlockStep::Nvfp4 { part, output, step: steps[i] })
}

/// The launches of a linear layer, as those of a block.
pub open spec fn launched(part: Part, input: Place, output: Place, steps: Result<Seq<LinearStep>, Seq<char>>) -> Plan {
    match steps {
        Ok(steps) => Ok(linear_launches(part, input, output, steps)),
        Err(words) => Err(words),
    }
}

/// Adds the launches of a linear layer.
fn put_linear(
    part: Part,
    input: Place,
    output: Place,
    list: Result<Vec<LinearStep>, Error>,
    steps: &mut Vec<BlockStep>,
    Ghost(expected): Ghost<Result<Seq<LinearStep>, Seq<char>>>,
) -> (result: Result<(), Error>)
    requires
        plan::agrees(list, expected),
    ensures
        plan::added(old(steps)@, final(steps)@, result, launched(part, input, output, expected)),
{
    let list = list?;
    let count: usize = list.len();
    let ghost before = steps@;
    for index in 0..count
        invariant
            count == list@.len(),
            steps@ =~= before + linear_launches(part, input, output, list@.take(index as int)),
    {
        steps.push(BlockStep::Linear { part, input, output, step: list[index] });
    }
    assert(list@.take(count as int) =~= list@);
    Ok(())
}

/// Adds the launches of an NVFP4 GEMM.
fn put_gemm(
    part: Part,
    weight: &Nvfp4Weight,
    activations: &Nvfp4Activations,
    output: Place,
    rows: usize,
    steps: &mut Vec<BlockStep>,
)
    requires
        activations.holds(rows as int, weight.columns as int),
        weight.rank <= activations.adapter_rank,
    ensures
        final(steps)@ == old(steps)@ + nvfp4_launches(part, output, Nvfp4Activations::gemm_steps(*weight, rows)),
{
    if let Some(list) = activations.gemm(weight, rows) {
        let count: usize = list.len();
        let ghost before = steps@;
        for index in 0..count
            invariant
                count == list@.len(),
                steps@ =~= before + nvfp4_launches(part, output, list@.take(index as int)),
        {
            steps.push(BlockStep::Nvfp4 { part, output, step: list[index] });
        }
        assert(list@.take(count as int) =~= list@);
    }
}

impl Block {
    pub open spec fn linear_of(self, part: Part) -> Linear {
        match part {
            Part::Qkv => self.qkv,
            Part::Gate => self.gate,
            Part::Out => self.out,
            Part::Fc1 => self.fc1,
            Part::Fc2 => self.fc2,
        }
    }

    fn linear_at(&self, part: Part) -> (linear: &Linear)
        ensures
            *linear == self.linear_of(part),
    {
        match part {
            Part::Qkv => &self.qkv,
            Part::Gate => &self.gate,
            Part::Out => &self.out,
            Part::Fc1 => &self.fc1,
            Part::Fc2 => &self.fc2,
        }
    }

    pub open spec fn name_of(self, part: Part) -> Seq<char> {
        self.prefix@ + part.letters()
    }

    /// The name of a layer of the block.
    pub fn name(&self, part: Part) -> (name: String)
        ensures
            name@ == self.name_of(part),
    {
        let mut name = self.prefix.clone();
        name.append(part.suffix());
        name
    }

    pub open spec fn has_norm(self, norm: Norm) -> bool {
        match norm {
            Norm::First => self.norm1,
            Norm::Second => self.norm2,
        }
    }

    /// That the weight of a normalization is missing.
    pub open spec fn norm_missing(self, norm: Norm) -> Seq<char> {
        model::missing_tensor(
            self.prefix@ + (match norm {
                Norm::First => ".norm1.weight"@,
                Norm::Second => ".norm2.weight"@,
            }),
        )
    }

    /// That a tensor of the block is missing.
    pub fn missing(&self, rest: &str) -> (error: Error)
        ensures
            error.says(model::missing_tensor(self.prefix@ + rest@)),
    {
        let mut message = String::from_str("missing tensor ");
        message.append(self.prefix.as_str());
        message.append(rest);
        proof {
            assert(message@ =~= model::missing_tensor(self.prefix@ + rest@));
        }
        Error::Model(message)
    }

    fn find_norm(&self, norm: Norm) -> (result: Result<(), Error>)
        ensures
            match result {
                Ok(_) => self.has_norm(norm),
                Err(error) => !self.has_norm(norm) && error.says(self.norm_missing(norm)),
            },
    {
        match norm {
            Norm::First => if self.norm1 {
                Ok(())
            } else {
                Err(self.missing(".norm1.weight"))
            },
            Norm::Second => if self.norm2 {
                Ok(())
            } else {
                Err(self.missing(".norm2.weight"))
            },
        }
    }

    /// Adds the delta to the residual where `gate` names a chunk for it, then normalizes and quantizes
    /// the residual for the INT8 layer `part`.
    pub open spec fn add_norm_quantize_plan(
        self,
        norm: Norm,
        part: Part,
        rows: usize,
        gate: Option<Gating>,
        modulation: Modulation,
    ) -> Plan {
        if self.has_norm(norm) {
            Ok(
                seq![
                    BlockStep::AddNormQuantize {
                        norm,
                        rows,
                        gate,
                        modulation,
                        keep: self.linear_of(part).keeps_input(),
                    },
                ],
            )
        } else {
            Err(self.norm_missing(norm))
        }
    }

    fn add_norm_quantize(
        &self,
        norm: Norm,
        part: Part,
        rows: usize,
        gate: Option<Gating>,
        modulation: Modulation,
        steps: &mut Vec<BlockStep>,
    ) -> (result: Result<(), Error>)
        ensures
            plan::added(
                old(steps)@,
                final(steps)@,
                result,
                self.add_norm_quantize_plan(norm, part, rows, gate, modulation),
            ),
    {
        self.find_norm(norm)?;
        let keep = match &self.linear_at(part).adapter {
            Some(adapter) => adapter.columns.is_none(),
            None => false,
        };
        steps.push(BlockStep::AddNormQuantize { norm, rows, gate, modulation, keep });
        Ok(())
    }

    /// That an NVFP4 layer has no history of its input's tensor scales.
    pub open spec fn no_history(self, part: Part) -> Seq<char> {
        self.name_of(part) + " has no NVFP4 input scale"@
    }

    fn find_history(&self, part: Part) -> (result: Result<(), Error>)
        ensures
            match result {
                Ok(_) => self.linear_of(part).history,
                Err(error) => !self.linear_of(part).history && error.says(self.no_history(part)),
            },
    {
        if self.linear_at(part).history {
            Ok(())
        } else {
            let mut message = self.name(part);
            message.append(" has no NVFP4 input scale");
            Err(Error::Model(message))
        }
    }

    /// `add_norm_quantize` for the NVFP4 layer `part` on `rows` rows from `first` on.
    pub open spec fn add_norm_quantize_nvfp4_plan(
        self,
        norm: Norm,
        part: Part,
        weight: Nvfp4Weight,
        first: usize,
        rows: usize,
        gate: Option<Gating>,
        modulation: Modulation,
    ) -> Plan {
        if !self.linear_of(part).history {
            Err(self.no_history(part))
        } else if !self.has_norm(norm) {
            Err(self.norm_missing(norm))
        } else {
            Ok(
                seq![
                    BlockStep::AddNormQuantizeNvfp4 {
                        norm,
                        part,
                        first,
                        rows,
                        columns: weight.columns,
                        gate,
                        modulation,
                    },
                ],
            )
        }
    }

    fn add_norm_quantize_nvfp4(
        &self,
        norm: Norm,
        part: Part,
        weight: &Nvfp4Weight,
        first: usize,
        rows: usize,
        gate: Option<Gating>,
        modulation: Modulation,
        steps: &mut Vec<BlockStep>,
    ) -> (result: Result<(), Error>)
        ensures
            plan::added(
                old(steps)@,
                final(steps)@,
                result,
                self.add_norm_quantize_nvfp4_plan(norm, part, *weight, first, rows, gate, modulation),
            ),
    {
        self.find_history(part)?;
        self.find_norm(norm)?;
        steps.push(
            BlockStep::AddNormQuantizeNvfp4 {
                norm,
                part,
                first,
                rows,
                columns: weight.columns,
                gate,
                modulation,
            },
        );
        Ok(())
    }

    pub open spec fn normalize_plan(self, norm: Norm, rows: usize, modulation: Option<Modulation>) -> Plan {
        if self.has_norm(norm) {
            Ok(seq![BlockStep::Normalize { norm, rows, modulation }])
        } else {
            Err(self.norm_missing(norm))
        }
    }

    fn normalize(&self, norm: Norm, rows: usize, modulation: Option<Modulation>, steps: &mut Vec<BlockStep>) -> (result:
        Result<(), Error>)
        ensures
            plan::added(old(steps)@, final(steps)@, result, self.normalize_plan(norm, rows, modulation)),
    {
        self.find_norm(norm)?;
        steps.push(BlockStep::Normalize { norm, rows, modulation });
        Ok(())
    }

    /// The layer `part` on `rows` rows. An NVFP4 layer runs the first `head` rows through its INT8
    /// weights.
    #[verifier::opaque]
    pub open spec fn linear_plan(self, part: Part, input: Place, output: Place, rows: usize, head: usize) -> Plan {
        let linear = self.linear_of(part);
        let name = self.name_of(part);
        match linear.nvfp4 {
            None => launched(part, input, output, model::linear_steps(name, linear.layer, rows, linear.adapter)),
            Some(weight) => plan::both(
                plan::when(
                    head > 0,
                    launched(part, input, output, model::linear_steps(name, linear.layer, head, linear.adapter)),
                ),
                if linear.history {
                    let tail = (rows - head) as usize;
                    Ok(
                        seq![
                            BlockStep::QuantizeNvfp4 {
                                part,
                                input: Place { offset: (head * weight.features * 2) as usize, ..input },
                                swiglu: false,
                                rows: tail,
                                features: weight.features,
                                columns: weight.columns,
                            },
                        ] + nvfp4_launches(
                            part,
                            Place { offset: (head * weight.outputs * 2) as usize, ..output },
                            Nvfp4Activations::gemm_steps(weight, tail),
                        ),
                    )
                } else {
                    Err(self.no_history(part))
                },
            ),
        }
    }

    /// The layer `part` on the rows of `input`, which start with the buffer, into `output`.
    fn linear(
        &self,
        part: Part,
        input: Buffer,
        output: Buffer,
        rows: usize,
        call: &BlockCall,
        steps: &mut Vec<BlockStep>,
    ) -> (result: Result<(), Error>)
        requires
            call.head <= rows <= call.tokens,
            call.serves(self.linear_of(part)),
        ensures
            plan::added(
                old(steps)@,
                final(steps)@,
                result,
                self.linear_plan(part, at(input), at(output), rows, call.head),
            ),
    {
        proof {
            reveal(Block::linear_plan);
        }
        let linear = self.linear_at(part);
        let name = self.name(part);
        let from = Place { buffer: input, offset: 0 };
        let into = Place { buffer: output, offset: 0 };
        let head: usize = call.head;
        match &linear.nvfp4 {
            None => {
                let list = model::linear(name.as_str(), linear.layer, rows, linear.adapter);
                put_linear(
                    part,
                    from,
                    into,
                    list,
                    steps,
                    Ghost(model::linear_steps(name@, linear.layer, rows, linear.adapter)),
                )
            },
            Some(weight) => {
                let ghost before = steps@;
                if head > 0 {
                    let list = model::linear(name.as_str(), linear.layer, head, linear.adapter);
                    put_linear(
                        part,
                        from,
                        into,
                        list,
                        steps,
                        Ghost(model::linear_steps(name@, linear.layer, head, linear.adapter)),
                    )?;
                }
                let ghost middle = steps@;
                self.find_history(part)?;
                let tail: usize = rows - head;
                if let Some(activations) = &call.activations {
                    proof {
                        arithmetic::products_grow(head as int, weight.features as int, head as int, weight.features as int);
                        arithmetic::products_grow(head as int, weight.outputs as int, head as int, weight.outputs as int);
                    }
                    steps.push(
                        BlockStep::QuantizeNvfp4 {
                            part,
                            input: Place { buffer: input, offset: head * weight.features * 2 },
                            swiglu: false,
                            rows: tail,
                            features: weight.features,
                            columns: weight.columns,
                        },
                    );
                    put_gemm(
                        part,
                        weight,
                        activations,
                        Place { buffer: output, offset: head * weight.outputs * 2 },
                        tail,
                        steps,
                    );
                }
                proof {
                    let list = self.linear_plan(part, at(input), at(output), rows, head)->Ok_0;
                    assert(steps@ =~= before + list);
                }
                Ok(())
            },
        }
    }
}

/// The beginning of a buffer.
pub open spec fn at(buffer: Buffer) -> Place {
    Place { buffer, offset: 0 }
}

impl Block {
    /// The INT8 layer `part` on rows that are already quantized.
    #[verifier::opaque]
    pub open spec fn quantized_plan(self, part: Part, output: Buffer, rows: usize, adapted: bool, swiglu: bool) -> Plan {
        let linear = self.linear_of(part);
        launched(
            part,
            at(Buffer::Quantized),
            at(output),
            model::quantized_steps(
                self.name_of(part),
                linear.layer,
                rows,
                if adapted {
                    linear.adapter
                } else {
                    None
                },
                swiglu,
            ),
        )
    }

    fn linear_quantized(
        &self,
        part: Part,
        output: Buffer,
        rows: usize,
        adapted: bool,
        swiglu: bool,
        steps: &mut Vec<BlockStep>,
    ) -> (result: Result<(), Error>)
        ensures
            plan::added(
                old(steps)@,
                final(steps)@,
                result,
                self.quantized_plan(part, output, rows, adapted, swiglu),
            ),
    {
        proof {
            reveal(Block::quantized_plan);
        }
        let linear = self.linear_at(part);
        let name = self.name(part);
        let adapter = if adapted {
            linear.adapter
        } else {
            None
        };
        let list = model::linear_quantized(name.as_str(), linear.layer, rows, adapter, swiglu);
        put_linear(
            part,
            Place { buffer: Buffer::Quantized, offset: 0 },
            Place { buffer: output, offset: 0 },
            list,
            steps,
            Ghost(model::quantized_steps(name@, linear.layer, rows, adapter, swiglu)),
        )
    }

    /// The GEMM of the NVFP4 version of `part` over the rows behind the first `head` ones.
    pub open spec fn gemm_plan(part: Part, weight: Nvfp4Weight, output: Place, rows: usize) -> Plan {
        Ok(nvfp4_launches(part, output, Nvfp4Activations::gemm_steps(weight, rows)))
    }

    /// The pending MLP output's place in the first normalization.
    pub open spec fn pending_gate(call: BlockCall) -> Option<Gating> {
        if call.pending {
            Some(Gating { table: Table::Pending, chunk: MLP_GATE_CHUNK })
        } else {
            None
        }
    }

    /// From the residual to q, k and v in a modulated block with an INT8 qkv projection, which normalizes
    /// and quantizes its input in one pass. A shared-out block projects after the exchange of what this
    /// quantized.
    #[verifier::opaque]
    pub open spec fn fused_projection_plan(self, call: BlockCall) -> Plan {
        let gate = Block::pending_gate(call);
        let modulation = Modulation { shift: 0, scale: 1 };
        let rows = if self.qkv.nvfp4 is Some {
            call.head
        } else {
            call.tokens
        };
        plan::both(
            plan::when(
                rows > 0,
                plan::both(
                    self.add_norm_quantize_plan(Norm::First, Part::Qkv, rows, gate, modulation),
                    plan::when(!call.sharded, self.quantized_plan(Part::Qkv, Buffer::Qkv, rows, true, false)),
                ),
            ),
            match self.qkv.nvfp4 {
                None => plan::nothing(),
                Some(weight) => {
                    let tail = (call.tokens - call.head) as usize;
                    plan::both(
                        self.add_norm_quantize_nvfp4_plan(
                            Norm::First,
                            Part::Qkv,
                            weight,
                            call.head,
                            tail,
                            gate,
                            modulation,
                        ),
                        Block::gemm_plan(
                            Part::Qkv,
                            weight,
                            Place { buffer: Buffer::Qkv, offset: (call.head * weight.outputs * 2) as usize },
                            tail,
                        ),
                    )
                },
            },
        )
    }

    fn project_fused(&self, call: &BlockCall, steps: &mut Vec<BlockStep>) -> (result: Result<(), Error>)
        requires
            call.serves_all(*self),
        ensures
            plan::added(old(steps)@, final(steps)@, result, self.fused_projection_plan(*call)),
    {
        proof {
            reveal(Block::fused_projection_plan);
        }
        let ghost before = steps@;
        let gate = if call.pending {
            Some(Gating { table: Table::Pending, chunk: MLP_GATE_CHUNK })
        } else {
            None
        };
        let modulation = Modulation { shift: 0, scale: 1 };
        let rows: usize = if self.qkv.nvfp4.is_some() {
            call.head
        } else {
            call.tokens
        };
        if rows > 0 {
            self.add_norm_quantize(Norm::First, Part::Qkv, rows, gate, modulation, steps)?;
            if !call.sharded {
                self.linear_quantized(Part::Qkv, Buffer::Qkv, rows, true, false, steps)?;
            }
        }
        if let Some(weight) = &self.qkv.nvfp4 {
            let tail: usize = call.tokens - call.head;
            self.add_norm_quantize_nvfp4(
                Norm::First,
                Part::Qkv,
                weight,
                call.head,
                tail,
                gate,
                modulation,
                steps,
            )?;
            if let Some(activations) = &call.activations {
                proof {
                    arithmetic::products_grow(
                        call.head as int,
                        weight.outputs as int,
                        call.head as int,
                        weight.outputs as int,
                    );
                }
                put_gemm(
                    Part::Qkv,
                    weight,
                    activations,
                    Place { buffer: Buffer::Qkv, offset: call.head * weight.outputs * 2 },
                    tail,
                    steps,
                );
            }
        }
        proof {
            let list = self.fused_projection_plan(*call)->Ok_0;
            assert(steps@ =~= before + list);
        }
        Ok(())
    }

    /// From the residual to q, k and v by way of its BF16 normalization.
    #[verifier::opaque]
    pub open spec fn plain_projection_plan(self, call: BlockCall) -> Plan {
        plan::both(
            plan::when(
                call.pending && call.modulated,
                Ok(seq![BlockStep::AddResidual { rows: call.tokens, gate: Block::pending_gate(call) }]),
            ),
            plan::both(
                self.normalize_plan(
                    Norm::First,
                    call.tokens,
                    if call.modulated {
                        Some(Modulation { shift: 0, scale: 1 })
                    } else {
                        None
                    },
                ),
                self.linear_plan(Part::Qkv, at(Buffer::Normalized), at(Buffer::Qkv), call.tokens, call.head),
            ),
        )
    }

    fn project_plain(&self, call: &BlockCall, steps: &mut Vec<BlockStep>) -> (result: Result<(), Error>)
        requires
            call.serves_all(*self),
        ensures
            plan::added(old(steps)@, final(steps)@, result, self.plain_projection_plan(*call)),
    {
        proof {
            reveal(Block::plain_projection_plan);
        }
        let ghost before = steps@;
        if call.pending && call.modulated {
            steps.push(
                BlockStep::AddResidual {
                    rows: call.tokens,
                    gate: Some(Gating { table: Table::Pending, chunk: MLP_GATE_CHUNK }),
                },
            );
        }
        let modulation = if call.modulated {
            Some(Modulation { shift: 0, scale: 1 })
        } else {
            None
        };
        self.normalize(Norm::First, call.tokens, modulation, steps)?;
        self.linear(Part::Qkv, Buffer::Normalized, Buffer::Qkv, call.tokens, call, steps)?;
        proof {
            let list = self.plain_projection_plan(*call)->Ok_0;
            assert(steps@ =~= before + list);
        }
        Ok(())
    }

    /// From the residual to q, k and v.
    pub open spec fn projection_plan(self, call: BlockCall) -> Plan {
        if call.modulated && self.qkv.int8() {
            self.fused_projection_plan(call)
        } else {
            self.plain_projection_plan(call)
        }
    }

    fn project(&self, call: &BlockCall, steps: &mut Vec<BlockStep>) -> (result: Result<(), Error>)
        requires
            call.serves_all(*self),
        ensures
            plan::added(old(steps)@, final(steps)@, result, self.projection_plan(*call)),
    {
        if call.modulated && self.qkv.is_int8() {
            self.project_fused(call, steps)
        } else {
            self.project_plain(call, steps)
        }
    }

    /// Whether the block writes VSA gates.
    pub open spec fn gated(self, call: BlockCall) -> bool {
        call.sparse == Some(Sparse::Vsa) && !call.sharded && call.gate && self.gate.layer is Some
    }

    /// The VSA gates of the block. NVFP4 gates take the NVFP4 input of the block's qkv projection, and
    /// its INT8 input for the first rows. Where the qkv projection took its input quantized, INT8 gates
    /// find it in the quantization buffers, and other gates take the BF16 input in `normalized`.
    #[verifier::opaque]
    pub open spec fn gate_plan(self, call: BlockCall) -> Plan {
        if !self.gated(call) {
            plan::nothing()
        } else {
            match self.gate.nvfp4 {
                Some(weight) => plan::both(
                    plan::when(call.head > 0, self.quantized_plan(Part::Gate, Buffer::Gate, call.head, false, false)),
                    Block::gemm_plan(
                        Part::Gate,
                        weight,
                        Place { buffer: Buffer::Gate, offset: (call.head * weight.outputs * 2) as usize },
                        (call.tokens - call.head) as usize,
                    ),
                ),
                None => if call.modulated && self.qkv.int8() && self.gate.int8() {
                    self.quantized_plan(Part::Gate, Buffer::Gate, call.tokens, false, false)
                } else {
                    self.linear_plan(Part::Gate, at(Buffer::Normalized), at(Buffer::Gate), call.tokens, call.head)
                },
            }
        }
    }

    fn vsa_gate(&self, call: &BlockCall, steps: &mut Vec<BlockStep>) -> (result: Result<bool, Error>)
        requires
            call.serves_all(*self),
        ensures
            match self.gate_plan(*call) {
                Ok(list) => result matches Ok(gated) && gated == self.gated(*call) && final(steps)@ == old(steps)@
                    + list,
                Err(words) => result matches Err(error) && error.says(words),
            },
    {
        proof {
            reveal(Block::gate_plan);
        }
        let ghost before = steps@;
        let vsa = match call.sparse {
            Some(Sparse::Vsa) => true,
            _ => false,
        };
        if !(vsa && !call.sharded && call.gate && self.gate.layer.is_some()) {
            assert(steps@ =~= before + Seq::<BlockStep>::empty());
            return Ok(false);
        }
        if let Some(weight) = &self.gate.nvfp4 {
            if call.head > 0 {
                self.linear_quantized(Part::Gate, Buffer::Gate, call.head, false, false, steps)?;
            }
            if let Some(activations) = &call.activations {
                proof {
                    arithmetic::products_grow(
                        call.head as int,
                        weight.outputs as int,
                        call.head as int,
                        weight.outputs as int,
                    );
                }
                put_gemm(
                    Part::Gate,
                    weight,
                    activations,
                    Place { buffer: Buffer::Gate, offset: call.head * weight.outputs * 2 },
                    call.tokens - call.head,
                    steps,
                );
            }
        } else if call.modulated && self.qkv.is_int8() && self.gate.is_int8() {
            self.linear_quantized(Part::Gate, Buffer::Gate, call.tokens, false, false, steps)?;
        } else {
            self.linear(Part::Gate, Buffer::Normalized, Buffer::Gate, call.tokens, call, steps)?;
        }
        proof {
            let list = self.gate_plan(*call)->Ok_0;
            assert(steps@ =~= before + list);
        }
        Ok(true)
    }

    /// From q, k and v to the attention's output. Sparse and quantized attention take their per-block
    /// inputs from the pass that normalizes q and k.
    #[verifier::opaque]
    pub open spec fn attention_plan(self, call: BlockCall) -> Plan {
        if !self.query_norm {
            Err(model::missing_tensor(self.prefix@ + ".attn.q_norm.weight"@))
        } else if !self.key_norm {
            Err(model::missing_tensor(self.prefix@ + ".attn.k_norm.weight"@))
        } else if call.sharded {
            Ok(seq![BlockStep::Sharded])
        } else {
            let attending = call.attending(self.gated(call));
            let prepared = attending != Attending::Dense;
            Ok(
                seq![
                    if prepared {
                        BlockStep::PrepareInputs {
                            attending,
                            rows: call.tokens,
                            heads: call.heads,
                            pairs: call.pairs,
                        }
                    } else {
                        BlockStep::QkNormRope { rows: call.tokens, heads: call.heads, pairs: call.pairs }
                    },
                    BlockStep::Attend { attending, prepared, rows: call.tokens, heads: call.heads },
                ],
            )
        }
    }

    fn attend(&self, call: &BlockCall, gated: bool, steps: &mut Vec<BlockStep>) -> (result: Result<(), Error>)
        requires
            gated == self.gated(*call),
        ensures
            plan::added(old(steps)@, final(steps)@, result, self.attention_plan(*call)),
    {
        proof {
            reveal(Block::attention_plan);
        }
        if !self.query_norm {
            return Err(self.missing(".attn.q_norm.weight"));
        }
        if !self.key_norm {
            return Err(self.missing(".attn.k_norm.weight"));
        }
        if call.sharded {
            steps.push(BlockStep::Sharded);
            return Ok(());
        }
        let attending = match call.sparse {
            Some(Sparse::Sol) => Attending::Sol,
            Some(Sparse::Vsa) => Attending::Vsa { gated },
            None => if call.quantized && call.modulated {
                Attending::DenseQuantized
            } else {
                Attending::Dense
            },
        };
        let prepared = match attending {
            Attending::Dense => false,
            _ => true,
        };
        if prepared {
            steps.push(
                BlockStep::PrepareInputs { attending, rows: call.tokens, heads: call.heads, pairs: call.pairs },
            );
        } else {
            steps.push(BlockStep::QkNormRope { rows: call.tokens, heads: call.heads, pairs: call.pairs });
        }
        steps.push(BlockStep::Attend { attending, prepared, rows: call.tokens, heads: call.heads });
        Ok(())
    }

    /// What gates the attention's output.
    pub open spec fn own_gate(call: BlockCall) -> Option<Gating> {
        if call.modulated {
            Some(Gating { table: Table::Own, chunk: 2 })
        } else {
            None
        }
    }

    /// The MLP with the NVFP4 gate and up projections `weight`, after the first rows went through the
    /// INT8 ones into `activated`.
    #[verifier::opaque]
    pub open spec fn nvfp4_mlp_plan(self, weight: Nvfp4Weight, call: BlockCall) -> Plan {
        let tail = (call.tokens - call.head) as usize;
        plan::both(
            self.add_norm_quantize_nvfp4_plan(
                Norm::Second,
                Part::Fc1,
                weight,
                call.head,
                tail,
                Block::own_gate(call),
                Modulation { shift: 3, scale: 4 },
            ),
            plan::both(
                Block::gemm_plan(Part::Fc1, weight, at(Buffer::Expanded), tail),
                match self.fc2.nvfp4 {
                    None => plan::both(
                        Ok(
                            seq![
                                BlockStep::SwiGlu {
                                    output: Place {
                                        buffer: Buffer::Activated,
                                        offset: (call.head * call.ffn * 2) as usize,
                                    },
                                    rows: tail,
                                    ffn: call.ffn,
                                },
                            ],
                        ),
                        self.linear_plan(Part::Fc2, at(Buffer::Activated), at(Buffer::Delta), call.tokens, 0),
                    ),
                    Some(down) => plan::both(
                        plan::when(
                            call.head > 0,
                            launched(
                                Part::Fc2,
                                at(Buffer::Activated),
                                at(Buffer::Delta),
                                model::linear_steps(
                                    self.name_of(Part::Fc2),
                                    self.fc2.layer,
                                    call.head,
                                    self.fc2.adapter,
                                ),
                            ),
                        ),
                        if self.fc2.history {
                            Ok(
                                seq![
                                    BlockStep::QuantizeNvfp4 {
                                        part: Part::Fc2,
                                        input: at(Buffer::Expanded),
                                        swiglu: true,
                                        rows: tail,
                                        features: down.features,
                                        columns: down.columns,
                                    },
                                ] + nvfp4_launches(
                                    Part::Fc2,
                                    Place { buffer: Buffer::Delta, offset: (call.head * down.outputs * 2) as usize },
                                    Nvfp4Activations::gemm_steps(down, tail),
                                ),
                            )
                        } else {
                            Err(self.no_history(Part::Fc2))
                        },
                    ),
                },
            ),
        )
    }

    fn nvfp4_mlp(&self, weight: &Nvfp4Weight, call: &BlockCall, steps: &mut Vec<BlockStep>) -> (result: Result<
        (),
        Error,
    >)
        requires
            call.serves_all(*self),
            call.modulated,
            self.fc1.nvfp4 == Some(*weight),
        ensures
            plan::added(old(steps)@, final(steps)@, result, self.nvfp4_mlp_plan(*weight, *call)),
    {
        proof {
            reveal(Block::nvfp4_mlp_plan);
        }
        let ghost before = steps@;
        let tail: usize = call.tokens - call.head;
        self.add_norm_quantize_nvfp4(
            Norm::Second,
            Part::Fc1,
            weight,
            call.head,
            tail,
            Some(Gating { table: Table::Own, chunk: 2 }),
            Modulation { shift: 3, scale: 4 },
            steps,
        )?;
        if let Some(activations) = &call.activations {
            put_gemm(
                Part::Fc1,
                weight,
                activations,
                Place { buffer: Buffer::Expanded, offset: 0 },
                tail,
                steps,
            );
        }
        let ghost first = steps@;
        match &self.fc2.nvfp4 {
            None => {
                proof {
                    arithmetic::products_grow(call.head as int, call.ffn as int, call.head as int, call.ffn as int);
                }
                steps.push(
                    BlockStep::SwiGlu {
                        output: Place { buffer: Buffer::Activated, offset: call.head * call.ffn * 2 },
                        rows: tail,
                        ffn: call.ffn,
                    },
                );
                let whole = BlockCall { head: 0, ..*call };
                self.linear(Part::Fc2, Buffer::Activated, Buffer::Delta, call.tokens, &whole, steps)?;
            },
            Some(down) => {
                if call.head > 0 {
                    let name = self.name(Part::Fc2);
                    let list = model::linear(name.as_str(), self.fc2.layer, call.head, self.fc2.adapter);
                    put_linear(
                        Part::Fc2,
                        Place { buffer: Buffer::Activated, offset: 0 },
                        Place { buffer: Buffer::Delta, offset: 0 },
                        list,
                        steps,
                        Ghost(model::linear_steps(name@, self.fc2.layer, call.head, self.fc2.adapter)),
                    )?;
                }
                self.find_history(Part::Fc2)?;
                if let Some(activations) = &call.activations {
                    steps.push(
                        BlockStep::QuantizeNvfp4 {
                            part: Part::Fc2,
                            input: Place { buffer: Buffer::Expanded, offset: 0 },
                            swiglu: true,
                            rows: tail,
                            features: down.features,
                            columns: down.columns,
                        },
                    );
                    proof {
                        arithmetic::products_grow(
                            call.head as int,
                            down.outputs as int,
                            call.head as int,
                            down.outputs as int,
                        );
                    }
                    put_gemm(
                        Part::Fc2,
                        down,
                        activations,
                        Place { buffer: Buffer::Delta, offset: call.head * down.outputs * 2 },
                        tail,
                        steps,
                    );
                }
            },
        }
        proof {
            let list = self.nvfp4_mlp_plan(*weight, *call)->Ok_0;
            assert(steps@ =~= before + list);
        }
        Ok(())
    }

    /// From the attention's projected output in `delta` to the MLP's. Without modulation an INT8 fc1 runs
    /// as a plain GEMM with SwiGLU after it, since only the rows of modulated blocks' fc1 are interleaved.
    #[verifier::opaque]
    pub open spec fn mlp_plan(self, call: BlockCall) -> Plan {
        if call.modulated && self.fc1.int8() {
            let rows = if self.fc1.nvfp4 is Some {
                call.head
            } else {
                call.tokens
            };
            plan::both(
                plan::when(
                    rows > 0,
                    plan::both(
                        self.add_norm_quantize_plan(
                            Norm::Second,
                            Part::Fc1,
                            rows,
                            Block::own_gate(call),
                            Modulation { shift: 3, scale: 4 },
                        ),
                        self.quantized_plan(Part::Fc1, Buffer::Activated, rows, true, true),
                    ),
                ),
                match self.fc1.nvfp4 {
                    Some(weight) => self.nvfp4_mlp_plan(weight, call),
                    None => self.linear_plan(
                        Part::Fc2,
                        at(Buffer::Activated),
                        at(Buffer::Delta),
                        call.tokens,
                        call.head,
                    ),
                },
            )
        } else {
            plan::both(
                Ok(seq![BlockStep::AddResidual { rows: call.tokens, gate: Block::own_gate(call) }]),
                plan::both(
                    self.normalize_plan(
                        Norm::Second,
                        call.tokens,
                        if call.modulated {
                            Some(Modulation { shift: 3, scale: 4 })
                        } else {
                            None
                        },
                    ),
                    plan::both(
                        self.linear_plan(
                            Part::Fc1,
                            at(Buffer::Normalized),
                            at(Buffer::Expanded),
                            call.tokens,
                            call.head,
                        ),
                        plan::both(
                            Ok(seq![BlockStep::SwiGlu { output: at(Buffer::Activated), rows: call.tokens, ffn: call.ffn }]),
                            plan::both(
                                self.linear_plan(
                                    Part::Fc2,
                                    at(Buffer::Activated),
                                    at(Buffer::Delta),
                                    call.tokens,
                                    call.head,
                                ),
                                plan::when(
                                    !call.modulated,
                                    Ok(seq![BlockStep::AddResidual { rows: call.tokens, gate: None }]),
                                ),
                            ),
                        ),
                    ),
                ),
            )
        }
    }

    fn mlp(&self, call: &BlockCall, steps: &mut Vec<BlockStep>) -> (result: Result<(), Error>)
        requires
            call.serves_all(*self),
        ensures
            plan::added(old(steps)@, final(steps)@, result, self.mlp_plan(*call)),
    {
        proof {
            reveal(Block::mlp_plan);
        }
        let ghost before = steps@;
        let modulation = Modulation { shift: 3, scale: 4 };
        let gate = if call.modulated {
            Some(Gating { table: Table::Own, chunk: 2 })
        } else {
            None
        };
        if call.modulated && self.fc1.is_int8() {
            let rows: usize = if self.fc1.nvfp4.is_some() {
                call.head
            } else {
                call.tokens
            };
            if rows > 0 {
                self.add_norm_quantize(Norm::Second, Part::Fc1, rows, gate, modulation, steps)?;
                self.linear_quantized(Part::Fc1, Buffer::Activated, rows, true, true, steps)?;
            }
            if let Some(weight) = &self.fc1.nvfp4 {
                self.nvfp4_mlp(weight, call, steps)?;
            } else {
                self.linear(Part::Fc2, Buffer::Activated, Buffer::Delta, call.tokens, call, steps)?;
            }
        } else {
            steps.push(BlockStep::AddResidual { rows: call.tokens, gate });
            let modulation = if call.modulated {
                Some(modulation)
            } else {
                None
            };
            self.normalize(Norm::Second, call.tokens, modulation, steps)?;
            self.linear(Part::Fc1, Buffer::Normalized, Buffer::Expanded, call.tokens, call, steps)?;
            steps.push(
                BlockStep::SwiGlu {
                    output: Place { buffer: Buffer::Activated, offset: 0 },
                    rows: call.tokens,
                    ffn: call.ffn,
                },
            );
            self.linear(Part::Fc2, Buffer::Activated, Buffer::Delta, call.tokens, call, steps)?;
            if !call.modulated {
                steps.push(BlockStep::AddResidual { rows: call.tokens, gate: None });
            }
        }
        proof {
            let list = self.mlp_plan(*call)->Ok_0;
            assert(steps@ =~= before + list);
        }
        Ok(())
    }

    /// The launches of the block. A modulated block leaves its MLP output in `delta` instead of adding it
    /// to the residual, so that the next block adds it in its first normalization.
    pub open spec fn plan(self, call: BlockCall) -> Plan {
        plan::both(
            self.projection_plan(call),
            plan::both(
                self.gate_plan(call),
                plan::both(
                    self.attention_plan(call),
                    plan::both(
                        self.linear_plan(Part::Out, at(Buffer::Attention), at(Buffer::Delta), call.tokens, call.head),
                        self.mlp_plan(call),
                    ),
                ),
            ),
        )
    }

    /// The launches of the attention and MLP halves of the block, or why there are none.
    pub fn transformer_block(&self, call: &BlockCall) -> (steps: Result<Vec<BlockStep>, Error>)
        requires
            call.serves_all(*self),
        ensures
            match self.plan(*call) {
                Ok(list) => steps matches Ok(steps) && steps@ == list,
                Err(words) => steps matches Err(error) && error.says(words),
            },
    {
        let mut steps: Vec<BlockStep> = Vec::new();
        self.project(call, &mut steps)?;
        let gated = self.vsa_gate(call, &mut steps)?;
        self.attend(call, gated, &mut steps)?;
        self.linear(Part::Out, Buffer::Attention, Buffer::Delta, call.tokens, call, &mut steps)?;
        self.mlp(call, &mut steps)?;
        proof {
            let list = self.plan(*call)->Ok_0;
            assert(steps@ =~= list);
        }
        Ok(steps)
    }
}

} // verus!
