//! Attention over the DiT's fused qkv projection output: the layouts it reads, the scratch it needs,
//! and the elements it addresses.
use crate::arithmetic;
use vstd::prelude::*;

verus! {

/// Width of a head.
pub const HEAD_DIM: usize = 128;

/// Tokens of a block of the sparse and the quantized attention.
pub const SPARSE_BLOCK: usize = 64;

/// Strides in elements of the query, key, value and output tensors, in that order, and the attention
/// pattern.
#[derive(Clone, Copy, Debug)]
pub struct AttentionLayout {
    pub token_stride: [i64; 4],
    pub head_stride: [i64; 4],
    pub batch_stride: [i64; 4],
    /// Query heads that share one key and value head, where zero means one.
    pub heads_per_key_value: i32,
    /// Nonzero masks the keys after each query's own position.
    pub causal: i32,
}

impl Default for AttentionLayout {
    fn default() -> (layout: Self)
        ensures
            layout.token_stride@ == seq![0i64, 0, 0, 0],
            layout.head_stride@ == seq![0i64, 0, 0, 0],
            layout.batch_stride@ == seq![0i64, 0, 0, 0],
            layout.heads_per_key_value == 0,
            layout.causal == 0,
    {
        AttentionLayout {
            token_stride: [0, 0, 0, 0],
            head_stride: [0, 0, 0, 0],
            batch_stride: [0, 0, 0, 0],
            heads_per_key_value: 0,
            causal: 0,
        }
    }
}

/// Element type of the heads.
#[derive(Clone, Copy, Debug, PartialEq, Eq, Structural)]
pub enum Element {
    Bf16,
    F16,
}

impl Element {
    /// Its number in the kernels' interface.
    pub fn code(self) -> (code: i32)
        ensures
            code == (match self {
                Element::Bf16 => 0i32,
                Element::F16 => 1i32,
            }),
    {
        match self {
            Element::Bf16 => 0,
            Element::F16 => 1,
        }
    }
}

/// Where query, key, value and output start, in elements from the start of their buffers.
#[derive(Clone, Copy, Debug, PartialEq, Eq, Structural)]
pub struct AttentionOffsets {
    pub query: usize,
    pub key: usize,
    pub value: usize,
    pub output: usize,
}

impl Default for AttentionOffsets {
    fn default() -> (offsets: Self)
        ensures
            offsets == (AttentionOffsets { query: 0, key: 0, value: 0, output: 0 }),
    {
        AttentionOffsets { query: 0, key: 0, value: 0, output: 0 }
    }
}

/// Arithmetic used by the DiT's attention. Quantization changes generated details.
#[derive(Clone, Copy, Debug, PartialEq, Eq, Structural)]
pub enum AttentionPrecision {
    Bf16,
    /// INT8 QK, FP8 E4M3 PV, FP32 softmax and accumulation, BF16 output.
    Int8Fp8,
}

impl Default for AttentionPrecision {
    fn default() -> (precision: Self)
        ensures
            precision == AttentionPrecision::Bf16,
    {
        AttentionPrecision::Bf16
    }
}

/// Where the attention finds its per-block inputs.
#[derive(Clone, Copy, Debug, PartialEq, Eq, Structural)]
pub enum AttentionInputs {
    /// The attention computes them from its BF16 q, k and v.
    Raw,
    /// The pass that normalizes q and k has left them in the workspace.
    Prepared,
}

impl AttentionInputs {
    /// Whether they are ready, as the kernels' interface has it.
    pub fn ready(self) -> (code: i32)
        ensures
            code == (if self == AttentionInputs::Prepared {
                1i32
            } else {
                0i32
            }),
    {
        match self {
            AttentionInputs::Prepared => 1,
            AttentionInputs::Raw => 0,
        }
    }
}

/// Scratch for one sequence of INT8/FP8 attention: the bytes of each buffer.
#[derive(Clone, Copy, Debug, PartialEq, Eq, Structural)]
pub struct QuantizedWorkspace {
    pub tokens: usize,
    pub heads: usize,
    pub query: usize,
    pub key: usize,
    pub value: usize,
    pub query_scales: usize,
    pub key_scales: usize,
    pub value_scales: usize,
    pub value_maxima: usize,
}

/// Whether a sequence of `tokens` tokens and `heads` heads can be quantized.
pub open spec fn quantizable(tokens: int, heads: int) -> bool {
    0 < tokens <= i32::MAX - 63 && 0 < heads <= u16::MAX
}

impl QuantizedWorkspace {
    pub open spec fn of(tokens: int, heads: int) -> QuantizedWorkspace {
        let blocks = arithmetic::ceil_div(tokens, SPARSE_BLOCK as int);
        QuantizedWorkspace {
            tokens: tokens as usize,
            heads: heads as usize,
            query: (tokens * heads * HEAD_DIM) as usize,
            key: (tokens * heads * HEAD_DIM) as usize,
            value: (blocks * SPARSE_BLOCK * heads * HEAD_DIM) as usize,
            query_scales: (heads * blocks * 4) as usize,
            key_scales: (heads * blocks * 4) as usize,
            value_scales: (heads * 4) as usize,
            value_maxima: (heads * blocks * 4) as usize,
        }
    }

    /// The scratch of `tokens` tokens and `heads` heads.
    pub fn new(tokens: usize, heads: usize) -> (workspace: QuantizedWorkspace)
        requires
            quantizable(tokens as int, heads as int),
            arithmetic::ceil_div(tokens as int, SPARSE_BLOCK as int) * SPARSE_BLOCK * heads * HEAD_DIM <= usize::MAX,
        ensures
            workspace == QuantizedWorkspace::of(tokens as int, heads as int),
    {
        let blocks: usize = arithmetic::units(tokens, SPARSE_BLOCK);
        proof {
            arithmetic::ceil_div_is_least(tokens as int, SPARSE_BLOCK as int);
            arithmetic::products_grow(tokens as int, heads as int, blocks * SPARSE_BLOCK, heads as int);
            arithmetic::products_grow(heads as int, blocks as int, heads as int, blocks as int);
            assert(blocks * SPARSE_BLOCK * heads == heads * blocks * 64) by (nonlinear_arith)
                requires
                    SPARSE_BLOCK == 64,
            ;
        }
        let scales: usize = heads * blocks * 4;
        QuantizedWorkspace {
            tokens,
            heads,
            query: tokens * heads * HEAD_DIM,
            key: tokens * heads * HEAD_DIM,
            value: blocks * SPARSE_BLOCK * heads * HEAD_DIM,
            query_scales: scales,
            key_scales: scales,
            value_scales: heads * 4,
            value_maxima: scales,
        }
    }

    /// Whether `qkv` and `output` bytes cover the workspace's sequence in the fused BF16 qkv and
    /// contiguous output layouts.
    pub fn covered(&self, qkv: usize, output: usize) -> (covered: bool)
        requires
            self.tokens * self.heads * HEAD_DIM * 6 <= usize::MAX,
        ensures
            covered == (qkv >= self.tokens * self.heads * HEAD_DIM * 6 && output >= self.tokens * self.heads * HEAD_DIM
                * 2),
    {
        proof {
            arithmetic::products_grow(self.tokens as int, self.heads as int, self.tokens as int, self.heads as int);
        }
        let elements: usize = self.tokens * self.heads * HEAD_DIM;
        qkv >= elements * 6 && output >= elements * 2
    }
}

/// Scratch of Sol-Attn for one sequence length and head count of 128-wide heads: the bytes of each
/// buffer.
#[derive(Clone, Copy, Debug, PartialEq, Eq, Structural)]
pub struct SparseWorkspace {
    pub quantized: Option<QuantizedWorkspace>,
    pub tokens: usize,
    pub heads: usize,
    pub blocks: usize,
    /// Centroids, block keys, value sums and tail values, of these many bytes each.
    pub per_block: usize,
    /// Key mean and variance, of these many bytes each.
    pub per_head: usize,
    pub row_offsets: usize,
    pub routes: usize,
    /// Route counts, tail maxima and tail sums, of these many bytes each.
    pub counts: usize,
}

impl SparseWorkspace {
    pub open spec fn of(tokens: int, heads: int, precision: AttentionPrecision) -> SparseWorkspace {
        let blocks = arithmetic::ceil_div(tokens, SPARSE_BLOCK as int);
        SparseWorkspace {
            quantized: match precision {
                AttentionPrecision::Bf16 => None,
                AttentionPrecision::Int8Fp8 => Some(QuantizedWorkspace::of(tokens, heads)),
            },
            tokens: tokens as usize,
            heads: heads as usize,
            blocks: blocks as usize,
            per_block: (heads * blocks * HEAD_DIM * 4) as usize,
            per_head: (heads * HEAD_DIM * 4) as usize,
            row_offsets: (heads * tokens * 4) as usize,
            routes: (heads * blocks * blocks * 2) as usize,
            counts: (heads * blocks * 4) as usize,
        }
    }

    /// Buffers for BF16 products.
    pub fn new(tokens: usize, heads: usize) -> (workspace: SparseWorkspace)
        requires
            arithmetic::ceil_div(tokens as int, SPARSE_BLOCK as int) * SPARSE_BLOCK * heads * HEAD_DIM <= usize::MAX,
            heads * arithmetic::ceil_div(tokens as int, SPARSE_BLOCK as int) * HEAD_DIM * 4 <= usize::MAX,
            heads * HEAD_DIM * 4 <= usize::MAX,
            heads * tokens * 4 <= usize::MAX,
            heads * arithmetic::ceil_div(tokens as int, SPARSE_BLOCK as int) * arithmetic::ceil_div(
                tokens as int,
                SPARSE_BLOCK as int,
            ) * 2 <= usize::MAX,
        ensures
            workspace == SparseWorkspace::of(tokens as int, heads as int, AttentionPrecision::Bf16),
    {
        SparseWorkspace::with_precision(tokens, heads, AttentionPrecision::Bf16)
    }

    /// Keeps BF16 routing and the FP32 pooled tail; quantizes the routed products when requested.
    pub fn with_precision(tokens: usize, heads: usize, precision: AttentionPrecision) -> (workspace: SparseWorkspace)
        requires
            precision == AttentionPrecision::Int8Fp8 ==> quantizable(tokens as int, heads as int),
            arithmetic::ceil_div(tokens as int, SPARSE_BLOCK as int) * SPARSE_BLOCK * heads * HEAD_DIM <= usize::MAX,
            heads * arithmetic::ceil_div(tokens as int, SPARSE_BLOCK as int) * HEAD_DIM * 4 <= usize::MAX,
            heads * HEAD_DIM * 4 <= usize::MAX,
            heads * tokens * 4 <= usize::MAX,
            heads * arithmetic::ceil_div(tokens as int, SPARSE_BLOCK as int) * arithmetic::ceil_div(
                tokens as int,
                SPARSE_BLOCK as int,
            ) * 2 <= usize::MAX,
        ensures
            workspace == SparseWorkspace::of(tokens as int, heads as int, precision),
    {
        let blocks: usize = arithmetic::units(tokens, SPARSE_BLOCK);
        proof {
            arithmetic::products_grow(heads as int, blocks as int, heads as int, blocks as int);
            arithmetic::products_grow(heads * blocks, blocks as int, heads * blocks, blocks as int);
            arithmetic::products_grow(heads as int, tokens as int, heads as int, tokens as int);
        }
        let quantized = match precision {
            AttentionPrecision::Bf16 => None,
            AttentionPrecision::Int8Fp8 => Some(QuantizedWorkspace::new(tokens, heads)),
        };
        SparseWorkspace {
            quantized,
            tokens,
            heads,
            blocks,
            per_block: heads * blocks * HEAD_DIM * 4,
            per_head: heads * HEAD_DIM * 4,
            row_offsets: heads * tokens * 4,
            routes: heads * blocks * blocks * 2,
            counts: heads * blocks * 4,
        }
    }

    pub fn tokens(&self) -> (tokens: usize)
        ensures
            tokens == self.tokens,
    {
        self.tokens
    }

    /// The (head, query block, key block) triples there are, of which a call routes some token by
    /// token.
    pub fn triples(&self) -> (triples: usize)
        requires
            self.heads * self.blocks * self.blocks <= usize::MAX,
        ensures
            triples == self.heads * self.blocks * self.blocks,
    {
        proof {
            arithmetic::products_grow(self.heads as int, self.blocks as int, self.heads as int, self.blocks as int);
            if self.blocks > 0 {
                assert(self.heads * self.blocks <= self.heads * self.blocks * self.blocks) by (nonlinear_arith)
                    requires
                        self.blocks > 0,
                        self.heads * self.blocks >= 0,
                ;
            } else {
                assert(self.heads * self.blocks == 0) by (nonlinear_arith)
                    requires
                        self.blocks == 0,
                ;
            }
        }
        self.heads * self.blocks * self.blocks
    }
}

/// A route count as an unsigned number of 64 bits.
pub open spec fn unsigned(count: i32) -> int {
    if count >= 0 {
        count as int
    } else {
        count + 0x1_0000_0000_0000_0000
    }
}

/// The sum of the first `count` route counts.
pub open spec fn routed_of(counts: Seq<i32>, count: int) -> int
    decreases count,
{
    if count <= 0 {
        0
    } else {
        routed_of(counts, count - 1) + unsigned(counts[count - 1])
    }
}

proof fn more_is_routed(counts: Seq<i32>, count: int, more: int)
    requires
        0 <= count <= more <= counts.len(),
    ensures
        0 <= routed_of(counts, count) <= routed_of(counts, more),
    decreases more,
{
    if more > 0 {
        if count == more {
            more_is_routed(counts, count - 1, more - 1);
        } else {
            more_is_routed(counts, count, more - 1);
        }
    }
}

/// How many triples a call routed token by token, from the count of each head and query block.
pub fn routed(counts: &Vec<i32>) -> (total: u64)
    requires
        routed_of(counts@, counts@.len() as int) <= u64::MAX,
    ensures
        total == routed_of(counts@, counts@.len() as int),
{
    let mut total: u64 = 0;
    let length: usize = counts.len();
    for index in 0..length
        invariant
            length == counts@.len(),
            routed_of(counts@, length as int) <= u64::MAX,
            total == routed_of(counts@, index as int),
    {
        proof {
            more_is_routed(counts@, index + 1, length as int);
        }
        let count: i32 = counts[index];
        let value: u64 = if count >= 0 {
            count as u64
        } else {
            u64::MAX - (-1 - count) as u64
        };
        total = total + value;
    }
    total
}

/// The layout of the fused qkv rows `[tokens, 3, heads, 128]`, and of contiguous output rows.
pub open spec fn is_fused(layout: AttentionLayout, inner: int) -> bool {
    &&& layout.token_stride@ == seq![(3 * inner) as i64, (3 * inner) as i64, (3 * inner) as i64, inner as i64]
    &&& layout.head_stride@ == seq![HEAD_DIM as i64, HEAD_DIM as i64, HEAD_DIM as i64, HEAD_DIM as i64]
    &&& layout.batch_stride@ == seq![0i64, 0, 0, 0]
    &&& layout.heads_per_key_value == 0
    &&& layout.causal == 0
}

/// The layout of the fused qkv rows of `inner` values each.
pub fn fused_layout(inner: usize) -> (layout: AttentionLayout)
    requires
        3 * inner <= i64::MAX,
        3 * inner <= usize::MAX,
    ensures
        is_fused(layout, inner as int),
{
    let wide: i64 = (3 * inner) as i64;
    let layout = AttentionLayout {
        token_stride: [wide, wide, wide, inner as i64],
        head_stride: [128, 128, 128, 128],
        batch_stride: [0, 0, 0, 0],
        heads_per_key_value: 0,
        causal: 0,
    };
    assert(layout.token_stride@ =~= seq![wide, wide, wide, inner as i64]);
    assert(layout.head_stride@ =~= seq![128i64, 128, 128, 128]);
    assert(layout.batch_stride@ =~= seq![0i64, 0, 0, 0]);
    layout
}

/// Whether `qkv` and `output` bytes hold `tokens` tokens of `heads` heads in the fused layout.
pub fn dense_covered(qkv: usize, output: usize, tokens: usize, heads: usize) -> (covered: bool)
    requires
        tokens * 3 * (heads * HEAD_DIM) * 2 <= usize::MAX,
        heads * HEAD_DIM <= usize::MAX,
        tokens * 3 <= usize::MAX,
    ensures
        covered == (qkv >= tokens * 3 * (heads * HEAD_DIM) * 2 && output >= tokens * (heads * HEAD_DIM) * 2),
{
    let inner: usize = heads * HEAD_DIM;
    proof {
        arithmetic::products_grow(tokens as int, inner as int, tokens * 3, inner as int);
    }
    qkv >= tokens * 3 * inner * 2 && output >= tokens * inner * 2
}

/// The heads of an operand: key and value heads are shared by `group` query heads.
pub open spec fn operand_heads(operand: int, heads: int, group: int) -> int {
    if operand == 1 || operand == 2 {
        heads / group
    } else {
        heads
    }
}

/// The element at `lane` of `head` of `token` of `batch` of an operand.
pub open spec fn element(
    layout: AttentionLayout,
    operand: int,
    offset: int,
    batch: int,
    token: int,
    head: int,
    lane: int,
) -> int {
    offset + batch * layout.batch_stride@[operand] + token * layout.token_stride@[operand] + head
        * layout.head_stride@[operand] + lane
}

/// The element just past the last one of an operand.
pub open spec fn past_last(
    layout: AttentionLayout,
    operand: int,
    offset: int,
    batch: int,
    tokens: int,
    heads: int,
    head_dim: int,
) -> int {
    element(layout, operand, offset, batch - 1, tokens - 1, heads - 1, head_dim)
}

/// The query heads that share one key and value head.
pub open spec fn group_of(layout: AttentionLayout) -> int {
    arithmetic::max(layout.heads_per_key_value as int, 1)
}

/// Whether the last element of every operand lies inside its buffer.
pub open spec fn reaches(
    layout: AttentionLayout,
    offsets: AttentionOffsets,
    batch: int,
    tokens: int,
    heads: int,
    head_dim: int,
    input_bytes: int,
    output_bytes: int,
) -> bool {
    let shared = operand_heads(1, heads, group_of(layout));
    &&& past_last(layout, 0, offsets.query as int, batch, tokens, heads, head_dim) <= input_bytes / 2
    &&& past_last(layout, 1, offsets.key as int, batch, tokens, shared, head_dim) <= input_bytes / 2
    &&& past_last(layout, 2, offsets.value as int, batch, tokens, shared, head_dim) <= input_bytes / 2
    &&& past_last(layout, 3, offsets.output as int, batch, tokens, heads, head_dim) <= output_bytes / 2
}

fn past(
    layout: &AttentionLayout,
    operand: usize,
    offset: usize,
    batch: usize,
    tokens: usize,
    heads: usize,
    head_dim: usize,
) -> (element: i128)
    requires
        operand < 4,
        batch <= i32::MAX,
        tokens <= i32::MAX,
        heads <= i32::MAX,
    ensures
        element == past_last(
            *layout,
            operand as int,
            offset as int,
            batch as int,
            tokens as int,
            heads as int,
            head_dim as int,
        ),
{
    let batch_stride: i64 = layout.batch_stride[operand];
    let token_stride: i64 = layout.token_stride[operand];
    let head_stride: i64 = layout.head_stride[operand];
    proof {
        small_product(batch - 1, batch_stride);
        small_product(tokens - 1, token_stride);
        small_product(heads - 1, head_stride);
    }
    offset as i128 + (batch as i128 - 1) * batch_stride as i128 + (tokens as i128 - 1) * token_stride as i128 + (
    heads as i128 - 1) * head_stride as i128 + head_dim as i128
}

proof fn small_product(count: int, stride: i64)
    requires
        -1 <= count <= i32::MAX,
    ensures
        -0x4000_0000_0000_0000_0000_0000 <= count * stride <= 0x4000_0000_0000_0000_0000_0000,
{
    assert(-0x4000_0000_0000_0000_0000_0000 <= count * stride <= 0x4000_0000_0000_0000_0000_0000) by (nonlinear_arith)
        requires
            -1 <= count <= 0x7fff_ffff,
            -0x8000_0000_0000_0000 <= stride <= 0x7fff_ffff_ffff_ffff,
    ;
}

/// Whether softmax attention over tensors described by `layout`, reading query, key and value from an
/// input of `input_bytes` bytes and writing an output of `output_bytes`, each starting at its offset,
/// stays inside both. Query head h reads key and value head h / heads_per_key_value, so the heads have
/// to be a multiple of those.
pub fn attention(
    input_bytes: usize,
    output_bytes: usize,
    offsets: AttentionOffsets,
    tokens: usize,
    heads: usize,
    batch: usize,
    head_dim: usize,
    layout: &AttentionLayout,
) -> (fits: bool)
    requires
        tokens <= i32::MAX,
        heads <= i32::MAX,
        batch <= i32::MAX,
    ensures
        fits == (heads as int % group_of(*layout) == 0 && reaches(
            *layout,
            offsets,
            batch as int,
            tokens as int,
            heads as int,
            head_dim as int,
            input_bytes as int,
            output_bytes as int,
        )),
{
    let group: usize = if layout.heads_per_key_value > 1 {
        layout.heads_per_key_value as usize
    } else {
        1
    };
    if heads % group != 0 {
        return false;
    }
    let shared: usize = heads / group;
    proof {
        assert(shared <= heads) by (nonlinear_arith)
            requires
                shared == heads / group,
                group >= 1,
        ;
    }
    let inputs: i128 = (input_bytes / 2) as i128;
    let outputs: i128 = (output_bytes / 2) as i128;
    past(layout, 0, offsets.query, batch, tokens, heads, head_dim) <= inputs && past(
        layout,
        1,
        offsets.key,
        batch,
        tokens,
        shared,
        head_dim,
    ) <= inputs && past(layout, 2, offsets.value, batch, tokens, shared, head_dim) <= inputs && past(
        layout,
        3,
        offsets.output,
        batch,
        tokens,
        heads,
        head_dim,
    ) <= outputs
}

/// Whether Sol-Attn over BF16 heads of 128 for one sequence stays inside its buffers.
pub fn sparse(
    input_bytes: usize,
    output_bytes: usize,
    offsets: AttentionOffsets,
    tokens: usize,
    heads: usize,
    layout: &AttentionLayout,
) -> (fits: bool)
    requires
        tokens <= i32::MAX,
        heads <= i32::MAX,
    ensures
        fits == ({
            &&& past_last(*layout, 0, offsets.query as int, 1, tokens as int, heads as int, HEAD_DIM as int) <= input_bytes
                as int / 2
            &&& past_last(*layout, 1, offsets.key as int, 1, tokens as int, heads as int, HEAD_DIM as int) <= input_bytes
                as int / 2
            &&& past_last(*layout, 2, offsets.value as int, 1, tokens as int, heads as int, HEAD_DIM as int) <= input_bytes
                as int / 2
            &&& past_last(*layout, 3, offsets.output as int, 1, tokens as int, heads as int, HEAD_DIM as int)
                <= output_bytes as int / 2
        }),
{
    let inputs: i128 = (input_bytes / 2) as i128;
    let outputs: i128 = (output_bytes / 2) as i128;
    past(layout, 0, offsets.query, 1, tokens, heads, HEAD_DIM) <= inputs && past(
        layout,
        1,
        offsets.key,
        1,
        tokens,
        heads,
        HEAD_DIM,
    ) <= inputs && past(layout, 2, offsets.value, 1, tokens, heads, HEAD_DIM) <= inputs && past(
        layout,
        3,
        offsets.output,
        1,
        tokens,
        heads,
        HEAD_DIM,
    ) <= outputs
}

/// Where the last element of an operand lies inside its buffer, every element does that the attention
/// addresses, as long as the strides go forward.
pub proof fn every_element_is_inside(
    layout: AttentionLayout,
    operand: int,
    offset: int,
    batch: int,
    tokens: int,
    heads: int,
    head_dim: int,
    elements: int,
    at_batch: int,
    at_token: int,
    at_head: int,
    at_lane: int,
)
    requires
        0 <= operand < 4,
        offset >= 0,
        layout.batch_stride@[operand] >= 0,
        layout.token_stride@[operand] >= 0,
        layout.head_stride@[operand] >= 0,
        past_last(layout, operand, offset, batch, tokens, heads, head_dim) <= elements,
        0 <= at_batch < batch,
        0 <= at_token < tokens,
        0 <= at_head < heads,
        0 <= at_lane < head_dim,
    ensures
        0 <= element(layout, operand, offset, at_batch, at_token, at_head, at_lane) < elements,
{
    arithmetic::products_grow(
        at_batch,
        layout.batch_stride@[operand] as int,
        batch - 1,
        layout.batch_stride@[operand] as int,
    );
    arithmetic::products_grow(
        at_token,
        layout.token_stride@[operand] as int,
        tokens - 1,
        layout.token_stride@[operand] as int,
    );
    arithmetic::products_grow(
        at_head,
        layout.head_stride@[operand] as int,
        heads - 1,
        layout.head_stride@[operand] as int,
    );
}

/// Whether the operands of the per-head RMSNorm of q and k, and of the rotary embedding of their first
/// `2 × pairs` dimensions, are all there: the BF16 qkv rows, 128 BF16 values of each weight, and the
/// FP32 angles of every token unless there are none.
pub fn head_norm_fits(
    qkv: usize,
    query_weight: usize,
    key_weight: usize,
    angles: Option<usize>,
    pairs: usize,
    tokens: usize,
    heads: usize,
) -> (fits: bool)
    requires
        tokens * 3 <= usize::MAX,
        tokens * 3 * heads <= usize::MAX,
        tokens * 3 * heads * HEAD_DIM * 2 <= usize::MAX,
        tokens * 64 * 4 <= usize::MAX,
    ensures
        fits == ({
            &&& qkv >= tokens * 3 * heads * HEAD_DIM * 2
            &&& query_weight >= HEAD_DIM * 2 && key_weight >= HEAD_DIM * 2
            &&& 2 * pairs <= HEAD_DIM
            &&& angles matches Some(angles) ==> angles >= tokens * pairs * 4
        }),
{
    proof {
        arithmetic::products_grow(tokens * 3, heads as int, tokens * 3, heads as int);
    }
    if pairs > HEAD_DIM / 2 {
        return false;
    }
    proof {
        arithmetic::products_grow(tokens as int, pairs as int, tokens as int, 64);
    }
    let angled = match angles {
        Some(angles) => angles >= tokens * pairs * 4,
        None => true,
    };
    qkv >= tokens * 3 * heads * HEAD_DIM * 2 && query_weight >= HEAD_DIM * 2 && key_weight >= HEAD_DIM * 2 && angled
}

} // verus!
