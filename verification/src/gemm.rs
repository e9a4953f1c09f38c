//! The GEMM kernels of the linear layers: which tile shape a product runs with, and the extents its
//! operands have to cover.
use vstd::prelude::*;

verus! {

/// Whether buffers of `input`, `output` and `scales` bytes hold `rows` rows of `columns` columns for
/// the rotation and quantization of an INT8 ConvRot layer's activations: 16-bit values in, INT8 values
/// and one f32 scale per row out.
pub fn rotate_quantize(input: usize, output: usize, scales: usize, rows: usize, columns: usize) -> (fits: bool)
    requires
        rows * columns * 2 <= usize::MAX,
        rows * 4 <= usize::MAX,
    ensures
        fits == (input >= rows * columns * 2 && output >= rows * columns && scales >= rows * 4),
{
    input >= rows * columns * 2 && output >= rows * columns && scales >= rows * 4
}

/// Whether the operands of a merge of a low-rank update into an INT8 ConvRot weight
/// `[outputs, features]` are all there: the INT8 weights with one f32 scale per row, and the FP32 `up`
/// `[outputs, rank]` and `down` `[rank, features]`.
pub fn merge_low_rank(
    weights: usize,
    scales: usize,
    up: usize,
    down: usize,
    outputs: usize,
    features: usize,
    rank: usize,
) -> (fits: bool)
    requires
        outputs * features <= usize::MAX,
        outputs * 4 <= usize::MAX,
        outputs * rank * 4 <= usize::MAX,
        rank * features * 4 <= usize::MAX,
    ensures
        fits == (weights >= outputs * features && scales >= outputs * 4 && up >= outputs * rank * 4 && down >= rank
            * features * 4),
{
    weights >= outputs * features && scales >= outputs * 4 && up >= outputs * rank * 4 && down >= rank * features * 4
}

/// The bytes of a `[rows, row_bytes]` matrix whose rows are to be interleaved for the SwiGLU output, or
/// nothing where `source` bytes do not hold it.
pub fn interleave_swiglu_rows(source: usize, rows: usize, row_bytes: usize) -> (bytes: Option<usize>)
    requires
        rows * row_bytes <= usize::MAX,
    ensures
        bytes == (if source >= rows * row_bytes {
            Some((rows * row_bytes) as usize)
        } else {
            None
        }),
{
    if source >= rows * row_bytes {
        Some(rows * row_bytes)
    } else {
        None
    }
}

/// The row of the checkpoint's order that stands at `row` once the SwiGLU rows are interleaved: of the
/// `rows` rows the first half are gates and the second half the matching up projections, and each
/// group of eight holds the gates of four features followed by their up projections.
pub open spec fn interleaved(row: int, rows: int) -> int {
    let feature = row / 8 * 4 + row % 4;
    if row % 8 < 4 {
        feature
    } else {
        rows / 2 + feature
    }
}

/// Where the row `row` of the checkpoint's order stands once the SwiGLU rows are interleaved.
pub open spec fn interleaved_place(row: int, rows: int) -> int {
    if row < rows / 2 {
        row / 4 * 8 + row % 4
    } else {
        (row - rows / 2) / 4 * 8 + 4 + (row - rows / 2) % 4
    }
}

/// Interleaving the SwiGLU rows moves each row to one place, and taking the interleaving back finds it
/// there.
pub proof fn interleaving_is_undone(row: int, rows: int)
    requires
        0 <= row < rows,
        rows % 8 == 0,
    ensures
        0 <= interleaved(row, rows) < rows,
        0 <= interleaved_place(row, rows) < rows,
        interleaved_place(interleaved(row, rows), rows) == row,
        interleaved(interleaved_place(row, rows), rows) == row,
{
}

/// The row that stands at `row` once the SwiGLU rows are interleaved.
pub fn interleaved_row(row: usize, rows: usize) -> (source: usize)
    requires
        row < rows,
        rows % 8 == 0,
    ensures
        source == interleaved(row as int, rows as int),
{
    let feature: usize = row / 8 * 4 + row % 4;
    if row % 8 < 4 {
        feature
    } else {
        rows / 2 + feature
    }
}

/// The tile shape an INT8 product of `m` rows and `n` columns over `k` values runs with: 128 × 256,
/// which is number one, for inputs shorter than 256 rows, such as prompts, and for reductions longer
/// than 8,192, where the columns come in whole tiles, and 256 × 128 otherwise.
pub open spec fn tile_config(m: int, n: int, k: int) -> int {
    if (m < 256 || k > 8192) && n % 256 == 0 {
        1
    } else {
        0
    }
}

/// The tile shape of an INT8 product.
pub fn int8_config(m: usize, n: usize, k: usize) -> (config: usize)
    ensures
        config == tile_config(m as int, n as int, k as int),
{
    if (m < 256 || k > 8192) && n % 256 == 0 {
        1
    } else {
        0
    }
}

/// A low-rank adapter added to an INT8 GEMM: `scale · down · upᵀ` with `down` `[m, rank]`, its rows
/// `down_stride` elements apart, and `up` `[n, rank]`, both BF16. `down` and `up` are the bytes there
/// are of each.
#[derive(Clone, Copy, Debug, PartialEq, Eq, Structural)]
pub struct Adapter {
    pub down: usize,
    pub up: usize,
    pub rank: usize,
    pub down_stride: usize,
}

/// Where an INT8 GEMM writes its result, `[m, n]` in BF16 or FP16, after adding an optional f32 bias
/// `[n]`, or `silu(gate) · up` as `[m, n / 2]` with `swiglu`. `buffer` and `bias` are the bytes there
/// are of each.
#[derive(Clone, Copy, Debug, PartialEq, Eq, Structural)]
pub struct Output {
    pub buffer: usize,
    /// Whether it is FP16 rather than BF16.
    pub half: bool,
    pub bias: Option<usize>,
    pub swiglu: bool,
}

/// Whether the operands of an INT8 GEMM are all there: row-major INT8 activations `[m, k]` and weights
/// `[n, k]`, an f32 scale for each row of both, and the rows of the output, of the bias and of the
/// adapter.
pub open spec fn int8_covers(
    activations: int,
    weights: int,
    activation_scales: int,
    weight_scales: int,
    output: Output,
    m: int,
    n: int,
    k: int,
    adapter: Option<Adapter>,
) -> bool {
    &&& activations >= m * k
    &&& weights >= n * k
    &&& activation_scales >= m * 4
    &&& weight_scales >= n * 4
    &&& output.buffer >= m * n * (if output.swiglu {
        1int
    } else {
        2int
    })
    &&& output.bias matches Some(bias) ==> bias >= n * 4
    &&& adapter matches Some(adapter) ==> {
        &&& adapter.down_stride >= adapter.rank
        &&& adapter.down >= m * adapter.down_stride * 2
        &&& adapter.up >= n * adapter.rank * 2
    }
}

/// Whether the operands of an INT8 GEMM are all there.
pub fn int8(
    activations: usize,
    weights: usize,
    activation_scales: usize,
    weight_scales: usize,
    output: Output,
    m: usize,
    n: usize,
    k: usize,
    adapter: Option<Adapter>,
) -> (fits: bool)
    requires
        m * k <= usize::MAX,
        n * k <= usize::MAX,
        m * 4 <= usize::MAX,
        n * 4 <= usize::MAX,
        m * n * 2 <= usize::MAX,
        adapter matches Some(adapter) ==> m * adapter.down_stride * 2 <= usize::MAX && n * adapter.rank * 2 <= usize::MAX,
    ensures
        fits == int8_covers(
            activations as int,
            weights as int,
            activation_scales as int,
            weight_scales as int,
            output,
            m as int,
            n as int,
            k as int,
            adapter,
        ),
{
    proof {
        assert(m * n >= 0) by (nonlinear_arith)
            requires
                m >= 0,
                n >= 0,
        ;
    }
    let width: usize = if output.swiglu {
        1
    } else {
        2
    };
    let covered = activations >= m * k && weights >= n * k && activation_scales >= m * 4 && weight_scales >= n * 4
        && output.buffer >= m * n * width;
    let biased = match output.bias {
        Some(bias) => bias >= n * 4,
        None => true,
    };
    let adapted = match adapter {
        Some(adapter) => adapter.down_stride >= adapter.rank && adapter.down >= m * adapter.down_stride * 2
            && adapter.up >= n * adapter.rank * 2,
        None => true,
    };
    covered && biased && adapted
}

} // verus!
