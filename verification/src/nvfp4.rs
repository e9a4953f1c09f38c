//! NVFP4 linear layers through cuBLASLt's block-scaled FP4 GEMM, with weights requantized from the
//! INT8 ConvRot checkpoints and activations rotated like ConvRot activations.
//!
//! The tensor scale of the activations comes from their largest magnitude. The first call of a
//! layer finds it in a pass of its own, and later calls take the previous call's value with a
//! margin, so that the quantization can fuse into the pass that produces the rows.
//!
//! A low-rank adapter runs inside the layer's GEMM as extra columns, `[x | z] · [W | B]ᵀ` with
//! `z = x · Aᵀ`: its up projection B follows the weight's inputs in every row, and before the GEMM
//! its down projection A runs as an NVFP4 GEMM of its own on the quantized input and writes z into
//! the activations' columns after the inputs.
use crate::arithmetic;
use vstd::prelude::*;

verus! {

/// Bytes of the block scales of `rows` rows of `columns` values: one per 16 values, with the rows
/// padded to a multiple of 128.
pub open spec fn block_scales(rows: int, columns: int) -> int {
    arithmetic::round_up(rows, 128) * columns / 16
}

/// Bytes of the block scales of `rows` rows of `columns` values.
pub fn scale_bytes(rows: usize, columns: usize) -> (bytes: usize)
    requires
        arithmetic::round_up(rows as int, 128) * columns <= usize::MAX,
        arithmetic::round_up(rows as int, 128) <= usize::MAX,
    ensures
        bytes == block_scales(rows as int, columns as int),
{
    arithmetic::rounded_up(rows, 128) * columns / 16
}

/// What follows the inputs in each row of an NVFP4 weight.
#[derive(Clone, Copy, Debug, PartialEq, Eq, Structural)]
pub enum Columns {
    /// Nothing.
    Inputs,
    /// Zeros up to this many columns in all, for a layer that takes the activations of another
    /// layer, together with that layer's adapter columns.
    Zeros(usize),
    /// The up projection of an adapter of this rank, then zeros up to a multiple of 256 columns:
    /// cuBLASLt's FP4 GEMM runs its reduction in tiles of 256 values, so an adapter costs a whole tile
    /// anyway.
    Adapter(usize),
}

impl Columns {
    /// The values in each row of a weight of `features` inputs.
    pub open spec fn total(self, features: int) -> int {
        match self {
            Columns::Inputs => features,
            Columns::Zeros(total) => total as int,
            Columns::Adapter(rank) => arithmetic::round_up(features + rank, 256),
        }
    }

    /// Whether they cover the inputs, in whole groups of 64.
    pub open spec fn fit(self, features: int) -> bool {
        &&& features <= self.total(features) <= usize::MAX
        &&& self.total(features) % 64 == 0
        &&& self matches Columns::Adapter(rank) ==> rank % 64 == 0
    }

    /// The values in each row of a weight of `features` inputs, unless they do not cover the inputs in
    /// whole groups of 64.
    pub fn count(self, features: usize) -> (total: Option<usize>)
        requires
            self matches Columns::Adapter(rank) ==> arithmetic::round_up(features + rank, 256) <= usize::MAX
                && features + rank <= usize::MAX,
        ensures
            total == (if features <= self.total(features as int) && self.total(features as int) % 64 == 0 {
                Some(self.total(features as int) as usize)
            } else {
                None
            }),
    {
        let total: usize = match self {
            Columns::Inputs => features,
            Columns::Zeros(total) => total,
            Columns::Adapter(rank) => arithmetic::rounded_up(features + rank, 256),
        };
        if total >= features && total % 64 == 0 {
            Some(total)
        } else {
            None
        }
    }
}

/// An adapter's columns lie in the row behind the inputs.
pub proof fn an_adapters_columns_lie_behind_the_inputs(features: int, rank: usize)
    requires
        features >= 0,
    ensures
        features + rank <= Columns::Adapter(rank).total(features),
        Columns::Adapter(rank).total(features) % 256 == 0,
        Columns::Adapter(rank).total(features) % 64 == 0,
{
    arithmetic::round_up_is_least(features + rank, 256);
    let total = Columns::Adapter(rank).total(features);
    assert(total % 64 == 0) by (nonlinear_arith)
        requires
            total % 256 == 0,
    ;
}

/// A weight `[outputs, features]` in NVFP4, with room for more columns in each row.
#[derive(Clone, Copy, Debug, PartialEq, Eq, Structural)]
pub struct Nvfp4Weight {
    pub outputs: usize,
    /// Inputs of the layer.
    pub features: usize,
    /// Values in each row: the inputs, then the up projection of the adapter, and zeros.
    pub columns: usize,
    /// Rank of the adapter, or zero without one. Its down projection is a weight `[rank, columns]`,
    /// with zeros after the inputs.
    pub rank: usize,
}

/// What is allocated for a weight, and what its pieces hold.
#[derive(Clone, Copy, Debug, PartialEq, Eq, Structural)]
pub struct Nvfp4Bytes {
    pub values: usize,
    pub scales: usize,
}

impl Nvfp4Weight {
    /// The adapter's columns fit behind the inputs, and the rows come in whole groups of 64.
    pub open spec fn valid(self) -> bool {
        &&& self.features + self.rank <= self.columns
        &&& self.columns % 64 == 0
        &&& self.rank % 64 == 0
    }

    /// What a weight `[outputs, features]` with `columns` behind its inputs comes to.
    pub open spec fn of(outputs: usize, features: usize, columns: Columns) -> Nvfp4Weight {
        Nvfp4Weight {
            outputs,
            features,
            columns: columns.total(features as int) as usize,
            rank: match columns {
                Columns::Adapter(rank) => rank,
                _ => 0,
            },
        }
    }

    /// Requantizes an INT8 ConvRot weight `[outputs, features]` of `weights` bytes with one f32 scale
    /// per row in `row_scales` bytes, with `columns` behind the inputs. Nothing comes of one whose
    /// operands are not all there, or whose columns do not fit.
    pub fn from_int8_with(
        weights: usize,
        row_scales: usize,
        outputs: usize,
        features: usize,
        columns: Columns,
    ) -> (weight: Option<Nvfp4Weight>)
        requires
            outputs * features <= usize::MAX,
            outputs * 4 <= usize::MAX,
            columns matches Columns::Adapter(rank) ==> arithmetic::round_up(features + rank, 256) <= usize::MAX
                && features + rank <= usize::MAX,
        ensures
            weight == (if weights >= outputs * features && row_scales >= outputs * 4 && columns.fit(features as int) {
                Some(Nvfp4Weight::of(outputs, features, columns))
            } else {
                None
            }),
            weight matches Some(weight) ==> weight.valid(),
    {
        if weights < outputs * features || row_scales < outputs * 4 {
            return None;
        }
        let rank: usize = match columns {
            Columns::Adapter(rank) => rank,
            _ => 0,
        };
        if rank % 64 != 0 {
            return None;
        }
        proof {
            if let Columns::Adapter(rank) = columns {
                an_adapters_columns_lie_behind_the_inputs(features as int, rank);
            }
        }
        match columns.count(features) {
            None => None,
            Some(total) => Some(Nvfp4Weight { outputs, features, columns: total, rank }),
        }
    }

    /// `from_int8_with` nothing behind the inputs.
    pub fn from_int8(weights: usize, row_scales: usize, outputs: usize, features: usize) -> (weight: Option<
        Nvfp4Weight,
    >)
        requires
            outputs * features <= usize::MAX,
            outputs * 4 <= usize::MAX,
        ensures
            weight == (if weights >= outputs * features && row_scales >= outputs * 4 && features % 64 == 0 {
                Some(Nvfp4Weight { outputs, features, columns: features, rank: 0 })
            } else {
                None
            }),
    {
        Nvfp4Weight::from_int8_with(weights, row_scales, outputs, features, Columns::Inputs)
    }

    /// What the adapter's down projection comes to, as a weight of its own.
    pub fn down(&self) -> (down: Option<Nvfp4Weight>)
        ensures
            down == (if self.rank > 0 {
                Some(
                    Nvfp4Weight {
                        outputs: self.rank,
                        features: self.features,
                        columns: self.columns,
                        rank: 0,
                    },
                )
            } else {
                None
            }),
    {
        if self.rank > 0 {
            Some(Nvfp4Weight { outputs: self.rank, features: self.features, columns: self.columns, rank: 0 })
        } else {
            None
        }
    }

    /// Rank of the adapter, or 0 without one.
    pub fn adapter_rank(&self) -> (rank: usize)
        ensures
            rank == self.rank,
    {
        self.rank
    }

    /// The bytes of its values, two to a byte, and of its block scales.
    pub fn bytes(&self) -> (bytes: Nvfp4Bytes)
        requires
            self.outputs * self.columns <= usize::MAX,
            arithmetic::round_up(self.outputs as int, 128) <= usize::MAX,
            arithmetic::round_up(self.outputs as int, 128) * self.columns <= usize::MAX,
        ensures
            bytes.values == self.outputs * self.columns / 2,
            bytes.scales == block_scales(self.outputs as int, self.columns as int),
    {
        Nvfp4Bytes { values: self.outputs * self.columns / 2, scales: scale_bytes(self.outputs, self.columns) }
    }
}

/// One launch of a weight's conversion.
#[derive(Clone, Copy, Debug, PartialEq, Eq, Structural)]
pub enum ConversionStep {
    /// The INT8 rows, of the adapter's down projection where `down` says so, into the first `features`
    /// of `columns` columns.
    Weights { down: bool, outputs: usize, features: usize, columns: usize, deinterleave: bool },
    /// The adapter's up projection into the `rank` columns from `offset` on.
    Up { outputs: usize, rank: usize, offset: usize, columns: usize, deinterleave: bool },
}

impl Nvfp4Weight {
    /// The launches of the conversion. With `deinterleave_swiglu`, the rows went through the SwiGLU
    /// interleaving and come back in their checkpoint order, gates first, and an adapter's up rows
    /// with them. The adapter's down projection never went through it.
    pub open spec fn conversion_steps(self, deinterleave_swiglu: bool) -> Seq<ConversionStep> {
        let weights = seq![
            ConversionStep::Weights {
                down: false,
                outputs: self.outputs,
                features: self.features,
                columns: self.columns,
                deinterleave: deinterleave_swiglu,
            },
        ];
        if self.rank > 0 {
            weights + seq![
                ConversionStep::Up {
                    outputs: self.outputs,
                    rank: self.rank,
                    offset: self.features,
                    columns: self.columns,
                    deinterleave: deinterleave_swiglu,
                },
                ConversionStep::Weights {
                    down: true,
                    outputs: self.rank,
                    features: self.features,
                    columns: self.columns,
                    deinterleave: false,
                },
            ]
        } else {
            weights
        }
    }

    /// The launches of the conversion.
    pub fn conversion(&self, deinterleave_swiglu: bool) -> (steps: Vec<ConversionStep>)
        ensures
            steps@ == self.conversion_steps(deinterleave_swiglu),
    {
        let mut steps: Vec<ConversionStep> = Vec::new();
        steps.push(
            ConversionStep::Weights {
                down: false,
                outputs: self.outputs,
                features: self.features,
                columns: self.columns,
                deinterleave: deinterleave_swiglu,
            },
        );
        if self.rank > 0 {
            steps.push(
                ConversionStep::Up {
                    outputs: self.outputs,
                    rank: self.rank,
                    offset: self.features,
                    columns: self.columns,
                    deinterleave: deinterleave_swiglu,
                },
            );
            steps.push(
                ConversionStep::Weights {
                    down: true,
                    outputs: self.rank,
                    features: self.features,
                    columns: self.columns,
                    deinterleave: false,
                },
            );
        }
        assert(steps@ =~= self.conversion_steps(deinterleave_swiglu));
        steps
    }
}

/// Whether the operands of an adapter `[outputs, rank] · [rank, features]` are all there: the INT8
/// down projection with one f32 scale per row, and the BF16 up projection. The rank is a multiple
/// of 64.
pub fn adapter_fits(
    down: usize,
    down_scales: usize,
    up: usize,
    rank: usize,
    outputs: usize,
    features: usize,
) -> (fits: bool)
    requires
        rank * features <= usize::MAX,
        rank * 4 <= usize::MAX,
        outputs * rank * 2 <= usize::MAX,
    ensures
        fits == (rank % 64 == 0 && down >= rank * features && down_scales >= rank * 4 && up >= outputs * rank * 2),
{
    rank % 64 == 0 && down >= rank * features && down_scales >= rank * 4 && up >= outputs * rank * 2
}

/// How a call finds its tensor scale.
#[derive(Clone, Copy, Debug, PartialEq, Eq, Structural)]
pub enum Margin {
    /// From its own largest magnitude, in a pass of its own.
    Exact,
    /// From the magnitude of the call before, with room to grow.
    Delayed,
}

/// Where one call reads and writes its largest magnitudes.
#[derive(Clone, Copy, Debug, PartialEq, Eq, Structural)]
pub struct ScaleSlots {
    /// The slot of the magnitude that gives the tensor scale, with `margin`.
    pub reference: usize,
    pub margin: Margin,
    /// The slot the call's own largest magnitude goes to, or none when it is exact.
    pub observed: Option<usize>,
}

/// The largest activation magnitudes of one layer's last two calls, in two slots, which give the next
/// call its tensor scale.
#[derive(Clone, Copy, Debug, PartialEq, Eq, Structural)]
pub struct Nvfp4Scale {
    calls: u64,
}

impl Nvfp4Scale {
    pub closed spec fn calls(self) -> nat {
        self.calls as nat
    }

    pub fn new() -> (scale: Nvfp4Scale)
        ensures
            scale.calls() == 0,
    {
        Nvfp4Scale { calls: 0 }
    }

    /// Whether a previous call left its largest magnitude for the next one.
    pub fn is_calibrated(&self) -> (calibrated: bool)
        ensures
            calibrated == (self.calls() > 0),
    {
        self.calls > 0
    }

    /// The slots of call number `call`. The first call is exact, and later calls alternate between the
    /// two slots.
    pub open spec fn slots(call: nat) -> ScaleSlots {
        if call == 0 {
            ScaleSlots { reference: 0, margin: Margin::Exact, observed: None }
        } else {
            ScaleSlots {
                reference: ((call - 1) % 2) as usize,
                margin: Margin::Delayed,
                observed: Some((call % 2) as usize),
            }
        }
    }

    /// The slots of the next call.
    pub fn next_call(&mut self) -> (slots: ScaleSlots)
        requires
            old(self).calls() < u64::MAX,
        ensures
            slots == Nvfp4Scale::slots(old(self).calls()),
            final(self).calls() == old(self).calls() + 1,
    {
        let call: u64 = self.calls;
        self.calls = call + 1;
        if call == 0 {
            ScaleSlots { reference: 0, margin: Margin::Exact, observed: None }
        } else {
            ScaleSlots {
                reference: ((call - 1) % 2) as usize,
                margin: Margin::Delayed,
                observed: Some((call % 2) as usize),
            }
        }
    }
}

/// Every call takes its tensor scale from where the call before left its largest magnitude, which it
/// does not write itself. The first call leaves its own where it reads it.
pub proof fn a_call_takes_what_the_call_before_left(call: nat)
    requires
        call > 0,
    ensures
        ({
            let before = Nvfp4Scale::slots((call - 1) as nat);
            let slots = Nvfp4Scale::slots(call);
            &&& slots.reference == (match before.observed {
                Some(slot) => slot,
                None => before.reference,
            })
            &&& slots.observed matches Some(observed) && observed != slots.reference && observed < 2
            &&& slots.reference < 2
        }),
{
}

/// Buffers for the NVFP4 activations of up to `rows` rows of up to `columns` values, for layers
/// with adapters of up to `adapter_rank`.
#[derive(Clone, Copy, Debug, PartialEq, Eq, Structural)]
pub struct Nvfp4Activations {
    pub rows: usize,
    pub columns: usize,
    pub adapter_rank: usize,
}

/// What is allocated for NVFP4 activations.
#[derive(Clone, Copy, Debug, PartialEq, Eq, Structural)]
pub struct ActivationBytes {
    pub values: usize,
    pub scales: usize,
    /// The tensor scale of the quantized activations, then alpha and beta for the GEMM.
    pub scratch: usize,
    /// BF16 down projections of an adapter `[rows, rank]`.
    pub adapter: usize,
}

/// One launch of an NVFP4 GEMM.
#[derive(Clone, Copy, Debug, PartialEq, Eq, Structural)]
pub enum Nvfp4Step {
    /// The factors of the GEMM of `weight`, the adapter's down projection where `down` says so.
    Alpha { down: bool },
    /// `output[rows, outputs] = activations · weightᵀ` over `columns` values, the adapter's down
    /// projection into the adapter buffer where `down` says so.
    Product { down: bool, rows: usize, outputs: usize, columns: usize },
    /// The adapter's `count` columns of the activations, from `offset` on, out of the adapter buffer.
    QuantizeColumns { rows: usize, count: usize, offset: usize, columns: usize },
}

impl Nvfp4Activations {
    /// Activations of up to `rows` rows of `columns` values, with adapters of up to `adapter_rank`.
    pub fn new(rows: usize, columns: usize, adapter_rank: usize) -> (activations: Nvfp4Activations)
        ensures
            activations == (Nvfp4Activations { rows, columns, adapter_rank }),
    {
        Nvfp4Activations { rows, columns, adapter_rank }
    }

    /// The bytes of its buffers.
    pub fn bytes(&self) -> (bytes: ActivationBytes)
        requires
            self.rows * self.columns <= usize::MAX,
            arithmetic::round_up(self.rows as int, 128) <= usize::MAX,
            arithmetic::round_up(self.rows as int, 128) * self.columns <= usize::MAX,
            self.rows * arithmetic::max(self.adapter_rank as int, 1) * 2 <= usize::MAX,
        ensures
            bytes.values == self.rows * self.columns / 2,
            bytes.scales == block_scales(self.rows as int, self.columns as int),
            bytes.scratch == 12,
            bytes.adapter == self.rows * arithmetic::max(self.adapter_rank as int, 1) * 2,
    {
        ActivationBytes {
            values: self.rows * self.columns / 2,
            scales: scale_bytes(self.rows, self.columns),
            scratch: 12,
            adapter: self.rows * arithmetic::greatest(self.adapter_rank, 1) * 2,
        }
    }

    /// Whether `rows` rows of `columns` values fit.
    pub open spec fn holds(self, rows: int, columns: int) -> bool {
        rows <= self.rows && columns <= self.columns
    }

    /// Whether `rows` rows of `columns` values fit.
    pub fn check_fits(&self, rows: usize, columns: usize) -> (fits: bool)
        ensures
            fits == self.holds(rows as int, columns as int),
    {
        rows <= self.rows && columns <= self.columns
    }

    /// The launches of `weight`'s GEMM over `rows` rows. With an adapter, its down projection first
    /// fills the activations' columns after the inputs.
    pub open spec fn gemm_steps(weight: Nvfp4Weight, rows: usize) -> Seq<Nvfp4Step> {
        let product = seq![
            Nvfp4Step::Alpha { down: false },
            Nvfp4Step::Product { down: false, rows, outputs: weight.outputs, columns: weight.columns },
        ];
        if weight.rank > 0 {
            seq![
                Nvfp4Step::Alpha { down: true },
                Nvfp4Step::Product { down: true, rows, outputs: weight.rank, columns: weight.columns },
                Nvfp4Step::QuantizeColumns {
                    rows,
                    count: weight.rank,
                    offset: weight.features,
                    columns: weight.columns,
                },
            ] + product
        } else {
            product
        }
    }

    /// The launches of `weight`'s GEMM over `rows` rows, unless the buffers are too small for them.
    pub fn gemm(&self, weight: &Nvfp4Weight, rows: usize) -> (steps: Option<Vec<Nvfp4Step>>)
        ensures
            if self.holds(rows as int, weight.columns as int) && weight.rank <= self.adapter_rank {
                steps matches Some(steps) && steps@ == Nvfp4Activations::gemm_steps(*weight, rows)
            } else {
                steps is None
            },
    {
        if !self.check_fits(rows, weight.columns) || weight.rank > self.adapter_rank {
            return None;
        }
        let mut steps: Vec<Nvfp4Step> = Vec::new();
        if weight.rank > 0 {
            steps.push(Nvfp4Step::Alpha { down: true });
            steps.push(
                Nvfp4Step::Product { down: true, rows, outputs: weight.rank, columns: weight.columns },
            );
            steps.push(
                Nvfp4Step::QuantizeColumns {
                    rows,
                    count: weight.rank,
                    offset: weight.features,
                    columns: weight.columns,
                },
            );
        }
        steps.push(Nvfp4Step::Alpha { down: false });
        steps.push(
            Nvfp4Step::Product { down: false, rows, outputs: weight.outputs, columns: weight.columns },
        );
        assert(steps@ =~= Nvfp4Activations::gemm_steps(*weight, rows));
        Some(steps)
    }
}

/// Whether the values, the adapter buffer and the columns that the GEMM of `weight` over `rows` rows
/// touches lie inside buffers that hold its rows and its adapter.
pub proof fn a_gemm_stays_in_its_buffers(activations: Nvfp4Activations, weight: Nvfp4Weight, rows: usize, step: int)
    requires
        weight.valid(),
        activations.holds(rows as int, weight.columns as int),
        weight.rank <= activations.adapter_rank,
        0 <= step < Nvfp4Activations::gemm_steps(weight, rows).len(),
    ensures
        match Nvfp4Activations::gemm_steps(weight, rows)[step] {
            Nvfp4Step::Alpha { down } => true,
            Nvfp4Step::Product { down, rows, outputs, columns } => {
                &&& rows * columns <= activations.rows * activations.columns
                &&& down ==> rows * outputs * 2 <= activations.rows * arithmetic::max(
                    activations.adapter_rank as int,
                    1,
                ) * 2
            },
            Nvfp4Step::QuantizeColumns { rows, count, offset, columns } => {
                &&& offset + count <= columns
                &&& rows * columns <= activations.rows * activations.columns
                &&& rows * count * 2 <= activations.rows * arithmetic::max(activations.adapter_rank as int, 1) * 2
            },
        },
{
    arithmetic::products_grow(
        rows as int,
        weight.columns as int,
        activations.rows as int,
        activations.columns as int,
    );
    arithmetic::products_grow(
        rows as int,
        weight.rank as int,
        activations.rows as int,
        arithmetic::max(activations.adapter_rank as int, 1),
    );
}

/// What the activations of a layer are made from.
#[derive(Clone, Copy, Debug, PartialEq, Eq, Structural)]
pub enum Nvfp4Input {
    /// BF16 rows `[rows, features]`.
    Rows,
    /// BF16 gates and up projections `[rows, 2 × features]`, whose SwiGLU is the input.
    SwiGlu,
}

/// Whether `input` bytes hold `rows` rows of what `kind` says for `weight`, and `output` bytes its BF16
/// outputs.
pub fn linear_fits(kind: Nvfp4Input, weight: &Nvfp4Weight, input: usize, output: usize, rows: usize) -> (fits: bool)
    requires
        rows * weight.features * 4 <= usize::MAX,
        rows * weight.outputs * 2 <= usize::MAX,
    ensures
        fits == (input >= rows * weight.features * (if kind == Nvfp4Input::Rows {
            2int
        } else {
            4int
        }) && output >= rows * weight.outputs * 2),
{
    proof {
        assert(rows * weight.features >= 0) by (nonlinear_arith)
            requires
                rows >= 0,
                weight.features >= 0,
        ;
    }
    let width: usize = match kind {
        Nvfp4Input::Rows => 2,
        Nvfp4Input::SwiGlu => 4,
    };
    input >= rows * weight.features * width && output >= rows * weight.outputs * 2
}

} // verus!
