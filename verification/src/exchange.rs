//! A block's attention when the step is shared out.
//!
//! The exchange is of what the projections consume, not of what they produce: a rank sends its rows of
//! the quantized block input, an eighth of the bytes q, k, v and the gates would take, and then runs its
//! own heads' columns over the whole sequence. The arithmetic is the same and nothing is quantized twice.
use crate::arithmetic;
use crate::attention::HEAD_DIM;
use crate::block::{Attending, Block, Part, Sparse};
use crate::model;
use crate::model::{AdapterPart, Error, LinearStep};
use crate::plan;
use crate::shard;
use crate::shard::{Region, Run, Shard};
use crate::workspace::DitConfig;
use vstd::prelude::*;

verus! {

/// What the time of a shared-out block goes to.
#[derive(Clone, Copy, Debug, PartialEq, Eq, Structural)]
pub enum Phase {
    Gather,
    Barrier,
    Read,
    Attend,
}

/// One action of a shared-out block's attention.
#[allow(inconsistent_fields)]
#[derive(Clone, Copy, Debug, PartialEq, Eq, Structural)]
pub enum ShardStep {
    /// Makes a region at least this large.
    Reserve { region: Region, bytes: usize },
    /// Copies this rank's quantized rows to their place in the region of every token's.
    CopyRows { offset: usize, bytes: usize },
    /// The same for their scales.
    CopyScales { offset: usize, bytes: usize },
    /// Waits for the device.
    Synchronize,
    /// Takes bytes of a region where peers can read them.
    Publish { region: Region, offset: usize, bytes: usize },
    /// Sends bytes of a region to a peer's.
    Write { peer: usize, from: Region, from_offset: usize, into: Region, into_offset: usize, bytes: usize },
    /// Waits for every rank.
    Barrier,
    /// Takes bytes of a region that arrived to the device.
    Receive { region: Region, offset: usize, bytes: usize },
    /// The adapter's down projection of the rows from `first` on.
    Down { part: Part, first: usize, step: LinearStep },
    /// A layer's columns over the rows from `first` on, into a region from `offset` on.
    Project { part: Part, first: usize, region: Region, offset: usize, step: LinearStep },
    /// Normalizes and rotates q and k, and makes what the attention reads of them.
    PrepareInputs { attending: Attending, rows: usize, heads: usize, pairs: usize },
    /// Normalizes and rotates q and k in place.
    QkNormRope { rows: usize, heads: usize, pairs: usize },
    Attend { attending: Attending, prepared: bool, rows: usize, heads: usize },
    /// Scatters rows of a peer's heads, in a region from `offset` on, to their places in the attention
    /// output.
    Unpack { region: Region, offset: usize, rows: usize, heads: usize, span: Run },
    /// Charges the time since the last charge, or since the clock started again.
    Charge(Phase),
    /// Starts the clock again: what was done since the last charge is charged to no phase.
    Restart,
}

/// The actions of a shared-out block, or why there are none.
pub type SharedPlan = plan::Plan<ShardStep>;

/// Whether the ranks' rows and heads are rows and heads of the step, whose regions can be counted.
pub open spec fn shares(shard: Shard, config: DitConfig, tokens: usize) -> bool {
    &&& shard.valid()
    &&& config.head_dim == HEAD_DIM
    &&& forall|k: int| 0 <= k < shard.tokens@.len() ==> (#[trigger] shard.tokens@[k]).end <= tokens
    &&& forall|k: int| 0 <= k < shard.heads@.len() ==> (#[trigger] shard.heads@[k]).end <= config.heads
    &&& 3 * config.width() <= usize::MAX
    &&& tokens * config.hidden <= usize::MAX
    &&& tokens * 4 <= usize::MAX
    &&& tokens * (3 * config.width()) * 2 <= usize::MAX
}

/// Values of one token over a run of heads.
pub open spec fn span_width(heads: Run) -> int {
    heads.size() * HEAD_DIM
}

/// Bytes up to a row of rows of this width, and of some rows, do not pass those of every row.
pub proof fn row_bytes(row: int, rows: int, tokens: int, width: int, most: int)
    requires
        0 <= row,
        0 <= rows,
        row + rows <= tokens,
        0 <= width <= most,
    ensures
        0 <= row * width <= tokens * most,
        0 <= rows * width <= tokens * most,
        row * width + rows * width <= tokens * width <= tokens * most,
{
    arithmetic::products_grow(row, width, tokens, most);
    arithmetic::products_grow(rows, width, tokens, most);
    arithmetic::products_grow(row + rows, width, tokens, width);
    arithmetic::products_grow(tokens, width, tokens, most);
    assert(row * width + rows * width == (row + rows) * width) by (nonlinear_arith);
}

/// The values of a run of heads are among those of every head.
pub proof fn span_is_narrow(heads: Run, config: DitConfig)
    requires
        heads.start <= heads.end <= config.heads,
        config.head_dim == HEAD_DIM,
    ensures
        0 <= span_width(heads) <= config.width(),
        heads.start * HEAD_DIM + span_width(heads) == heads.end * HEAD_DIM,
        heads.end * HEAD_DIM <= config.width(),
{
}

/// The columns of a qkv projection that make one of q, k and v for a run of heads.
pub open spec fn tensor_columns(config: DitConfig, heads: Run, tensor: int) -> Run {
    Run {
        start: (tensor * config.width() + heads.start * HEAD_DIM) as usize,
        end: (tensor * config.width() + heads.end * HEAD_DIM) as usize,
    }
}

/// One of q, k and v of a range of rows. The three tensors of one token sit side by side, so each
/// projection writes a column range of a row that is three times as wide as its own result.
pub open spec fn tensor_plan(
    block: Block,
    config: DitConfig,
    heads: Run,
    rows: Run,
    tensor: int,
    adapter: Option<AdapterPart>,
) -> SharedPlan {
    let inner = span_width(heads);
    match model::range_step(
        block.name_of(Part::Qkv),
        block.qkv.layer,
        rows.size() as usize,
        tensor_columns(config, heads, tensor),
        (3 * inner) as usize,
        adapter,
    ) {
        Err(words) => Err(words),
        Ok(step) => Ok(
            seq![
                ShardStep::Project {
                    part: Part::Qkv,
                    first: rows.start,
                    region: Region::Inputs,
                    offset: ((rows.start * (3 * inner) + tensor * inner) * 2) as usize,
                    step,
                },
            ],
        ),
    }
}

pub open spec fn downs(part: Part, first: usize, steps: Seq<LinearStep>) -> Seq<ShardStep> {
    Seq::new(steps.len(), |i: int| ShardStep::Down { part, first, step: steps[i] })
}

/// q, k and v of a range of rows. An adapter's down projection depends on the block's input alone, so
/// the three tensors share one.
#[verifier::opaque]
pub open spec fn qkv_plan(block: Block, config: DitConfig, heads: Run, rows: Run) -> SharedPlan {
    match model::quantized_adapter(block.name_of(Part::Qkv), block.qkv.adapter, rows.size() as usize) {
        Err(words) => Err(words),
        Ok((steps, adapter)) => plan::both(
            Ok(downs(Part::Qkv, rows.start, steps)),
            plan::both(
                tensor_plan(block, config, heads, rows, 0, adapter),
                plan::both(
                    tensor_plan(block, config, heads, rows, 1, adapter),
                    tensor_plan(block, config, heads, rows, 2, adapter),
                ),
            ),
        ),
    }
}

/// The gates of a range of rows.
#[verifier::opaque]
pub open spec fn gate_plan(block: Block, heads: Run, rows: Run) -> SharedPlan {
    match model::quantized_adapter(block.name_of(Part::Gate), block.gate.adapter, rows.size() as usize) {
        Err(words) => Err(words),
        Ok((steps, adapter)) => match model::range_step(
            block.name_of(Part::Gate),
            block.gate.layer,
            rows.size() as usize,
            Run { start: (heads.start * HEAD_DIM) as usize, end: (heads.end * HEAD_DIM) as usize },
            0,
            adapter,
        ) {
            Err(words) => Err(words),
            Ok(step) => Ok(
                downs(Part::Gate, rows.start, steps) + seq![
                    ShardStep::Project {
                        part: Part::Gate,
                        first: rows.start,
                        region: Region::Gate,
                        offset: (rows.start * span_width(heads) * 2) as usize,
                        step,
                    },
                ],
            ),
        },
    }
}

/// The attention projections over one range of the sequence's rows: a row of the result depends on that
/// row of the input alone.
pub open spec fn inputs_plan(block: Block, config: DitConfig, heads: Run, rows: Run, gated: bool) -> SharedPlan {
    if rows.size() == 0 {
        Ok(Seq::empty())
    } else {
        plan::both(qkv_plan(block, config, heads, rows), plan::when(gated, gate_plan(block, heads, rows)))
    }
}

fn put_downs(part: Part, first: usize, list: &Vec<LinearStep>, steps: &mut Vec<ShardStep>)
    ensures
        final(steps)@ == old(steps)@ + downs(part, first, list@),
{
    let count: usize = list.len();
    let ghost before = steps@;
    for index in 0..count
        invariant
            count == list@.len(),
            steps@ =~= before + downs(part, first, list@.take(index as int)),
    {
        steps.push(ShardStep::Down { part, first, step: list[index] });
    }
    assert(list@.take(count as int) =~= list@);
}

fn project_tensor(
    block: &Block,
    config: &DitConfig,
    heads: Run,
    rows: Run,
    tensor: usize,
    adapter: Option<AdapterPart>,
    tokens: usize,
    steps: &mut Vec<ShardStep>,
) -> (result: Result<(), Error>)
    requires
        heads.start <= heads.end <= config.heads,
        rows.start < rows.end <= tokens,
        tensor < 3,
        config.head_dim == HEAD_DIM,
        3 * config.width() <= usize::MAX,
        tokens * (3 * config.width()) * 2 <= usize::MAX,
    ensures
        plan::added(
            old(steps)@,
            final(steps)@,
            result,
            tensor_plan(*block, *config, heads, rows, tensor as int, adapter),
        ),
{
    proof {
        span_is_narrow(heads, *config);
    }
    let whole: usize = config.inner();
    let inner: usize = heads.len() * HEAD_DIM;
    let name = block.name(Part::Qkv);
    proof {
        assert(tensor * whole + whole <= 3 * whole) by (nonlinear_arith)
            requires
                tensor <= 2,
                whole >= 0,
        ;
        assert(0 <= tensor * inner && tensor * inner + inner <= 3 * inner) by (nonlinear_arith)
            requires
                0 <= tensor <= 2,
                inner >= 0,
        ;
        row_bytes(rows.start as int, rows.size(), tokens as int, 3 * inner, 3 * config.width());
        assert(rows.size() * (3 * inner) >= 3 * inner) by (nonlinear_arith)
            requires
                rows.size() >= 1,
                inner >= 0,
        ;
    }
    let columns = Run { start: tensor * whole + heads.start * HEAD_DIM, end: tensor * whole + heads.end * HEAD_DIM };
    let step = model::linear_quantized_range(
        name.as_str(),
        block.qkv.layer,
        rows.len(),
        columns,
        3 * inner,
        adapter,
    )?;
    steps.push(
        ShardStep::Project {
            part: Part::Qkv,
            first: rows.start,
            region: Region::Inputs,
            offset: (rows.start * (3 * inner) + tensor * inner) * 2,
            step,
        },
    );
    Ok(())
}

/// The attention projections over one range of the sequence's rows.
pub fn project_inputs(
    block: &Block,
    config: &DitConfig,
    heads: Run,
    rows: Run,
    gated: bool,
    tokens: usize,
    steps: &mut Vec<ShardStep>,
) -> (result: Result<(), Error>)
    requires
        heads.start <= heads.end <= config.heads,
        rows.start <= rows.end <= tokens,
        config.head_dim == HEAD_DIM,
        3 * config.width() <= usize::MAX,
        tokens * (3 * config.width()) * 2 <= usize::MAX,
    ensures
        plan::added(old(steps)@, final(steps)@, result, inputs_plan(*block, *config, heads, rows, gated)),
{
    let ghost before = steps@;
    let count: usize = rows.len();
    if count == 0 {
        return Ok(());
    }
    proof {
        reveal(qkv_plan);
        reveal(gate_plan);
    }
    let name = block.name(Part::Qkv);
    let (down, adapter) = model::adapter_down(name.as_str(), block.qkv.adapter, count)?;
    put_downs(Part::Qkv, rows.start, &down, steps);
    project_tensor(block, config, heads, rows, 0, adapter, tokens, steps)?;
    project_tensor(block, config, heads, rows, 1, adapter, tokens, steps)?;
    project_tensor(block, config, heads, rows, 2, adapter, tokens, steps)?;
    assert(plan::added(before, steps@, Ok(()), qkv_plan(*block, *config, heads, rows)));
    if gated {
        let ghost middle = steps@;
        proof {
            span_is_narrow(heads, *config);
            row_bytes(
                rows.start as int,
                rows.size(),
                tokens as int,
                span_width(heads),
                3 * config.width(),
            );
        }
        let name = block.name(Part::Gate);
        let inner: usize = heads.len() * HEAD_DIM;
        let (down, adapter) = model::adapter_down(name.as_str(), block.gate.adapter, count)?;
        let step = model::linear_quantized_range(
            name.as_str(),
            block.gate.layer,
            count,
            Run { start: heads.start * HEAD_DIM, end: heads.end * HEAD_DIM },
            0,
            adapter,
        )?;
        put_downs(Part::Gate, rows.start, &down, steps);
        steps.push(
            ShardStep::Project {
                part: Part::Gate,
                first: rows.start,
                region: Region::Gate,
                offset: rows.start * inner * 2,
                step,
            },
        );
        assert(plan::added(middle, steps@, Ok(()), gate_plan(*block, heads, rows)));
    }
    Ok(())
}

/// Puts this rank's rows of the block input where the peers can read them. The copies are on a stream
/// and the wire is not, so the device has to finish before the rows go out.
#[verifier::opaque]
pub open spec fn publishing(shard: Shard, hidden: usize, tokens: usize) -> Seq<ShardStep> {
    let rows = shard.tokens@[shard.rank as int];
    let (offset, bytes) = ((rows.start * hidden) as usize, (rows.size() * hidden) as usize);
    let (scales_offset, scales_bytes) = ((rows.start * 4) as usize, (rows.size() * 4) as usize);
    seq![
        ShardStep::Reserve { region: Region::Normalized, bytes: (tokens * hidden) as usize },
        ShardStep::Reserve { region: Region::Scales, bytes: (tokens * 4) as usize },
        ShardStep::CopyRows { offset, bytes },
        ShardStep::CopyScales { offset: scales_offset, bytes: scales_bytes },
        ShardStep::Synchronize,
        ShardStep::Publish { region: Region::Normalized, offset, bytes },
        ShardStep::Publish { region: Region::Scales, offset: scales_offset, bytes: scales_bytes },
        ShardStep::Charge(Phase::Gather),
    ]
}

/// Puts this rank's rows of the block input where the peers can read them.
pub fn publish_inputs(shard: &Shard, config: &DitConfig, tokens: usize, steps: &mut Vec<ShardStep>)
    requires
        shares(*shard, *config, tokens),
    ensures
        final(steps)@ == old(steps)@ + publishing(*shard, config.hidden, tokens),
{
    proof {
        reveal(publishing);
    }
    let ghost before = steps@;
    let rows = shard.own_tokens();
    let hidden: usize = config.hidden;
    proof {
        row_bytes(rows.start as int, rows.size(), tokens as int, hidden as int, hidden as int);
    }
    let offset: usize = rows.start * hidden;
    let bytes: usize = rows.len() * hidden;
    steps.push(ShardStep::Reserve { region: Region::Normalized, bytes: tokens * hidden });
    steps.push(ShardStep::Reserve { region: Region::Scales, bytes: tokens * 4 });
    steps.push(ShardStep::CopyRows { offset, bytes });
    steps.push(ShardStep::CopyScales { offset: rows.start * 4, bytes: rows.len() * 4 });
    steps.push(ShardStep::Synchronize);
    steps.push(ShardStep::Publish { region: Region::Normalized, offset, bytes });
    steps.push(ShardStep::Publish { region: Region::Scales, offset: rows.start * 4, bytes: rows.len() * 4 });
    steps.push(ShardStep::Charge(Phase::Gather));
    assert(steps@ =~= before + publishing(*shard, hidden, tokens));
}

/// What this rank sends to a peer of its rows of the block input.
pub open spec fn sent_to(rows: Run, hidden: usize, peer: int) -> Seq<ShardStep> {
    seq![
        ShardStep::Write {
            peer: peer as usize,
            from: Region::Normalized,
            from_offset: (rows.start * hidden) as usize,
            into: Region::Normalized,
            into_offset: (rows.start * hidden) as usize,
            bytes: (rows.size() * hidden) as usize,
        },
        ShardStep::Write {
            peer: peer as usize,
            from: Region::Scales,
            from_offset: (rows.start * 4) as usize,
            into: Region::Scales,
            into_offset: (rows.start * 4) as usize,
            bytes: (rows.size() * 4) as usize,
        },
    ]
}

/// What this rank takes to the device of a peer's rows of the block input.
pub open spec fn fetched_from(rows: Run, hidden: usize) -> Seq<ShardStep> {
    seq![
        ShardStep::Receive {
            region: Region::Normalized,
            offset: (rows.start * hidden) as usize,
            bytes: (rows.size() * hidden) as usize,
        },
        ShardStep::Receive {
            region: Region::Scales,
            offset: (rows.start * 4) as usize,
            bytes: (rows.size() * 4) as usize,
        },
    ]
}

/// What this rank sends to a peer of its heads' attention: the peer's rows, each in its place among
/// what arrives from this rank.
pub open spec fn returned_to(shard: Shard, peer: int) -> Seq<ShardStep> {
    let taken = shard.tokens@[peer];
    let width = span_width(shard.heads@[shard.rank as int]) * 2;
    seq![
        ShardStep::Publish {
            region: Region::Attended,
            offset: (taken.start * width) as usize,
            bytes: (taken.size() * width) as usize,
        },
        ShardStep::Write {
            peer: peer as usize,
            from: Region::Attended,
            from_offset: (taken.start * width) as usize,
            into: Region::Received(shard.rank),
            into_offset: 0,
            bytes: (taken.size() * width) as usize,
        },
    ]
}

/// What this rank takes to the device of a peer's heads' attention.
pub open spec fn arrived_from(shard: Shard, peer: int) -> Seq<ShardStep> {
    let rows = shard.tokens@[shard.rank as int];
    seq![
        ShardStep::Receive {
            region: Region::Received(peer as usize),
            offset: 0,
            bytes: (rows.size() * (span_width(shard.heads@[peer]) * 2)) as usize,
        },
    ]
}

/// Scatters the rows of a rank's heads to their places. This rank attended its own rows at their offset
/// in the whole sequence.
pub open spec fn unpacked_from(shard: Shard, heads: usize, peer: int) -> Seq<ShardStep> {
    let rows = shard.tokens@[shard.rank as int];
    let span = shard.heads@[peer];
    if peer == shard.rank {
        seq![
            ShardStep::Unpack {
                region: Region::Attended,
                offset: (rows.start * (span_width(span) * 2)) as usize,
                rows: rows.size() as usize,
                heads,
                span,
            },
        ]
    } else {
        seq![
            ShardStep::Reserve {
                region: Region::Received(peer as usize),
                bytes: (rows.size() * (span_width(span) * 2)) as usize,
            },
            ShardStep::Unpack {
                region: Region::Received(peer as usize),
                offset: 0,
                rows: rows.size() as usize,
                heads,
                span,
            },
        ]
    }
}

/// What is done for each of the first `count` ranks other than this one.
pub open spec fn for_peers(shard: Shard, count: int, done: spec_fn(int) -> Seq<ShardStep>) -> Seq<ShardStep>
    decreases count,
{
    if count <= 0 {
        Seq::empty()
    } else if count - 1 == shard.rank {
        for_peers(shard, count - 1, done)
    } else {
        for_peers(shard, count - 1, done) + done(count - 1)
    }
}

/// What is done for each of the first `count` ranks.
pub open spec fn for_ranks(count: int, done: spec_fn(int) -> Seq<ShardStep>) -> Seq<ShardStep>
    decreases count,
{
    if count <= 0 {
        Seq::empty()
    } else {
        for_ranks(count - 1, done) + done(count - 1)
    }
}

/// Pushes this rank's rows of the block input to every peer. It runs after the projections of those same
/// rows are queued, so the device works through them in the meantime.
#[verifier::opaque]
pub open spec fn sending(shard: Shard, hidden: usize) -> Seq<ShardStep> {
    let rows = shard.tokens@[shard.rank as int];
    for_peers(shard, shard.tokens@.len() as int, |peer: int| sent_to(rows, hidden, peer)) + seq![
        ShardStep::Charge(Phase::Read),
    ]
}

/// Pushes this rank's rows of the block input to every peer.
pub fn send_inputs(shard: &Shard, config: &DitConfig, tokens: usize, steps: &mut Vec<ShardStep>)
    requires
        shares(*shard, *config, tokens),
    ensures
        final(steps)@ == old(steps)@ + sending(*shard, config.hidden),
{
    proof {
        reveal(sending);
    }
    let ghost before = steps@;
    let rows = shard.own_tokens();
    let hidden: usize = config.hidden;
    let ghost done = |peer: int| sent_to(rows, hidden, peer);
    proof {
        row_bytes(rows.start as int, rows.size(), tokens as int, hidden as int, hidden as int);
    }
    let offset: usize = rows.start * hidden;
    let bytes: usize = rows.len() * hidden;
    let ranks: usize = shard.ranks();
    for peer in 0..ranks
        invariant
            ranks == shard.tokens@.len(),
            offset == rows.start * hidden,
            bytes == rows.size() * hidden,
            rows.start <= rows.end <= tokens,
            tokens * 4 <= usize::MAX,
            done == (|peer: int| sent_to(rows, hidden, peer)),
            steps@ =~= before + for_peers(*shard, peer as int, done),
    {
        if peer != shard.rank {
            steps.push(
                ShardStep::Write {
                    peer,
                    from: Region::Normalized,
                    from_offset: offset,
                    into: Region::Normalized,
                    into_offset: offset,
                    bytes,
                },
            );
            steps.push(
                ShardStep::Write {
                    peer,
                    from: Region::Scales,
                    from_offset: rows.start * 4,
                    into: Region::Scales,
                    into_offset: rows.start * 4,
                    bytes: rows.len() * 4,
                },
            );
        }
    }
    steps.push(ShardStep::Charge(Phase::Read));
    assert(steps@ =~= before + sending(*shard, hidden));
}

/// Waits for every rank's rows of the block input to have landed and takes them to the device, then
/// waits again so that nothing overwrites them before every rank has read them.
#[verifier::opaque]
pub open spec fn fetching(shard: Shard, hidden: usize) -> Seq<ShardStep> {
    seq![ShardStep::Barrier, ShardStep::Charge(Phase::Barrier)] + for_peers(
        shard,
        shard.tokens@.len() as int,
        |peer: int| fetched_from(shard.tokens@[peer], hidden),
    ) + seq![ShardStep::Charge(Phase::Read), ShardStep::Barrier, ShardStep::Charge(Phase::Barrier)]
}

/// Waits for every rank's rows of the block input and takes them to the device.
pub fn fetch_inputs(shard: &Shard, config: &DitConfig, tokens: usize, steps: &mut Vec<ShardStep>)
    requires
        shares(*shard, *config, tokens),
    ensures
        final(steps)@ == old(steps)@ + fetching(*shard, config.hidden),
{
    proof {
        reveal(fetching);
    }
    let ghost before = steps@;
    let hidden: usize = config.hidden;
    let ghost done = |peer: int| fetched_from(shard.tokens@[peer], hidden);
    steps.push(ShardStep::Barrier);
    steps.push(ShardStep::Charge(Phase::Barrier));
    let ghost head = steps@;
    let ranks: usize = shard.ranks();
    for peer in 0..ranks
        invariant
            ranks == shard.tokens@.len(),
            hidden == config.hidden,
            shares(*shard, *config, tokens),
            done == (|peer: int| fetched_from(shard.tokens@[peer], hidden)),
            steps@ =~= head + for_peers(*shard, peer as int, done),
    {
        if peer != shard.rank {
            let taken = shard.tokens[peer];
            proof {
                row_bytes(taken.start as int, taken.size(), tokens as int, hidden as int, hidden as int);
            }
            steps.push(
                ShardStep::Receive {
                    region: Region::Normalized,
                    offset: taken.start * hidden,
                    bytes: taken.len() * hidden,
                },
            );
            steps.push(
                ShardStep::Receive { region: Region::Scales, offset: taken.start * 4, bytes: taken.len() * 4 },
            );
        }
    }
    steps.push(ShardStep::Charge(Phase::Read));
    steps.push(ShardStep::Barrier);
    steps.push(ShardStep::Charge(Phase::Barrier));
    assert(steps@ =~= before + fetching(*shard, hidden));
}

/// Turns "every token, my heads" back into "my tokens, every head", leaving a block's attention output
/// where the projection that follows expects it.
#[verifier::opaque]
pub open spec fn returning(shard: Shard, config: DitConfig, tokens: usize) -> Seq<ShardStep> {
    let ranks = shard.tokens@.len() as int;
    let width = span_width(shard.heads@[shard.rank as int]) * 2;
    seq![
        ShardStep::Reserve { region: Region::Attended, bytes: (tokens * width) as usize },
        ShardStep::Restart,
    ] + for_peers(
        shard,
        ranks,
        |peer: int| returned_to(shard, peer),
    ) + seq![ShardStep::Charge(Phase::Read), ShardStep::Barrier, ShardStep::Charge(Phase::Barrier)] + for_peers(
        shard,
        ranks,
        |peer: int| arrived_from(shard, peer),
    ) + seq![ShardStep::Charge(Phase::Read), ShardStep::Barrier, ShardStep::Charge(Phase::Barrier)] + for_ranks(
        ranks,
        |peer: int| unpacked_from(shard, config.heads, peer),
    ) + seq![ShardStep::Charge(Phase::Gather)]
}

/// The bytes of rows over a run of heads can be counted.
pub proof fn span_bytes(rows: Run, heads: Run, config: DitConfig, tokens: usize)
    requires
        rows.start <= rows.end <= tokens,
        heads.start <= heads.end <= config.heads,
        config.head_dim == HEAD_DIM,
        tokens * (3 * config.width()) * 2 <= usize::MAX,
        3 * config.width() <= usize::MAX,
    ensures
        0 <= span_width(heads) <= config.width(),
        span_width(heads) * 2 <= usize::MAX,
        0 <= rows.start * (span_width(heads) * 2) <= usize::MAX,
        0 <= rows.size() * (span_width(heads) * 2) <= usize::MAX,
        0 <= tokens * (span_width(heads) * 2) <= usize::MAX,
{
    span_is_narrow(heads, config);
    row_bytes(
        rows.start as int,
        rows.size(),
        tokens as int,
        span_width(heads) * 2,
        3 * config.width() * 2,
    );
    row_bytes(0, tokens as int, tokens as int, span_width(heads) * 2, 3 * config.width() * 2);
    assert(tokens * (3 * config.width() * 2) == tokens * (3 * config.width()) * 2) by (nonlinear_arith);
}

/// Sends this rank's heads' attention to the peers whose rows it is.
fn return_rows(shard: &Shard, config: &DitConfig, tokens: usize, steps: &mut Vec<ShardStep>)
    requires
        shares(*shard, *config, tokens),
    ensures
        final(steps)@ == old(steps)@ + for_peers(
            *shard,
            shard.tokens@.len() as int,
            |peer: int| returned_to(*shard, peer),
        ),
{
    let ghost before = steps@;
    let ghost done = |peer: int| returned_to(*shard, peer);
    let own = shard.own_heads();
    proof {
        span_bytes(shard.tokens@[shard.rank as int], own, *config, tokens);
    }
    let width: usize = own.len() * HEAD_DIM * 2;
    let ranks: usize = shard.ranks();
    for peer in 0..ranks
        invariant
            ranks == shard.tokens@.len(),
            shares(*shard, *config, tokens),
            own == shard.heads@[shard.rank as int],
            width == span_width(own) * 2,
            done == (|peer: int| returned_to(*shard, peer)),
            steps@ =~= before + for_peers(*shard, peer as int, done),
    {
        if peer != shard.rank {
            let taken = shard.tokens[peer];
            proof {
                span_bytes(taken, own, *config, tokens);
            }
            let offset: usize = taken.start * width;
            let bytes: usize = taken.len() * width;
            steps.push(ShardStep::Publish { region: Region::Attended, offset, bytes });
            steps.push(
                ShardStep::Write {
                    peer,
                    from: Region::Attended,
                    from_offset: offset,
                    into: Region::Received(shard.rank),
                    into_offset: 0,
                    bytes,
                },
            );
        }
    }
}

/// Takes the peers' heads' attention of this rank's rows to the device.
fn take_rows(shard: &Shard, config: &DitConfig, tokens: usize, steps: &mut Vec<ShardStep>)
    requires
        shares(*shard, *config, tokens),
    ensures
        final(steps)@ == old(steps)@ + for_peers(
            *shard,
            shard.tokens@.len() as int,
            |peer: int| arrived_from(*shard, peer),
        ),
{
    let ghost before = steps@;
    let ghost done = |peer: int| arrived_from(*shard, peer);
    let rows = shard.own_tokens();
    let ranks: usize = shard.ranks();
    for peer in 0..ranks
        invariant
            ranks == shard.tokens@.len(),
            shares(*shard, *config, tokens),
            rows == shard.tokens@[shard.rank as int],
            done == (|peer: int| arrived_from(*shard, peer)),
            steps@ =~= before + for_peers(*shard, peer as int, done),
    {
        if peer != shard.rank {
            let span = shard.heads[peer];
            proof {
                span_bytes(rows, span, *config, tokens);
            }
            let width: usize = span.len() * HEAD_DIM * 2;
            steps.push(
                ShardStep::Receive { region: Region::Received(peer), offset: 0, bytes: rows.len() * width },
            );
        }
    }
}

/// Scatters every rank's heads of this rank's rows to their places.
fn scatter_rows(shard: &Shard, config: &DitConfig, tokens: usize, steps: &mut Vec<ShardStep>)
    requires
        shares(*shard, *config, tokens),
    ensures
        final(steps)@ == old(steps)@ + for_ranks(
            shard.tokens@.len() as int,
            |peer: int| unpacked_from(*shard, config.heads, peer),
        ),
{
    let ghost before = steps@;
    let ghost done = |peer: int| unpacked_from(*shard, config.heads, peer);
    let rows = shard.own_tokens();
    let ranks: usize = shard.ranks();
    for peer in 0..ranks
        invariant
            ranks == shard.tokens@.len(),
            shares(*shard, *config, tokens),
            rows == shard.tokens@[shard.rank as int],
            done == (|peer: int| unpacked_from(*shard, config.heads, peer)),
            steps@ =~= before + for_ranks(peer as int, done),
    {
        let span = shard.heads[peer];
        proof {
            span_bytes(rows, span, *config, tokens);
        }
        let width: usize = span.len() * HEAD_DIM * 2;
        if peer == shard.rank {
            steps.push(
                ShardStep::Unpack {
                    region: Region::Attended,
                    offset: rows.start * width,
                    rows: rows.len(),
                    heads: config.heads,
                    span,
                },
            );
        } else {
            steps.push(ShardStep::Reserve { region: Region::Received(peer), bytes: rows.len() * width });
            steps.push(
                ShardStep::Unpack {
                    region: Region::Received(peer),
                    offset: 0,
                    rows: rows.len(),
                    heads: config.heads,
                    span,
                },
            );
        }
    }
}

/// Turns "every token, my heads" back into "my tokens, every head".
pub fn exchange_outputs(shard: &Shard, config: &DitConfig, tokens: usize, steps: &mut Vec<ShardStep>)
    requires
        shares(*shard, *config, tokens),
    ensures
        final(steps)@ == old(steps)@ + returning(*shard, *config, tokens),
{
    proof {
        reveal(returning);
    }
    let ghost before = steps@;
    let own = shard.own_heads();
    proof {
        span_bytes(shard.tokens@[shard.rank as int], own, *config, tokens);
    }
    let width: usize = own.len() * HEAD_DIM * 2;
    steps.push(ShardStep::Reserve { region: Region::Attended, bytes: tokens * width });
    steps.push(ShardStep::Restart);
    return_rows(shard, config, tokens, steps);
    steps.push(ShardStep::Charge(Phase::Read));
    steps.push(ShardStep::Barrier);
    steps.push(ShardStep::Charge(Phase::Barrier));
    take_rows(shard, config, tokens, steps);
    steps.push(ShardStep::Charge(Phase::Read));
    steps.push(ShardStep::Barrier);
    steps.push(ShardStep::Charge(Phase::Barrier));
    scatter_rows(shard, config, tokens, steps);
    steps.push(ShardStep::Charge(Phase::Gather));
    assert(steps@ =~= before + returning(*shard, *config, tokens));
}

/// The projections of the first `count` ranks' rows, without this rank's own.
pub open spec fn peers_plan(block: Block, config: DitConfig, shard: Shard, gated: bool, count: int) -> SharedPlan
    decreases count,
{
    if count <= 0 {
        Ok(Seq::empty())
    } else {
        plan::both(
            peers_plan(block, config, shard, gated, count - 1),
            plan::when(
                count - 1 != shard.rank,
                inputs_plan(block, config, shard.heads@[shard.rank as int], shard.tokens@[count - 1], gated),
            ),
        )
    }
}

/// How the attention of a shared-out block is called.
#[derive(Clone, Copy, Debug, PartialEq, Eq, Structural)]
pub struct SharedCall {
    /// The tokens of the whole sequence.
    pub tokens: usize,
    /// Rotated pairs per head.
    pub pairs: usize,
    pub sparse: Option<Sparse>,
    /// Whether there is a workspace of quantized attention.
    pub quantized: bool,
}

impl SharedCall {
    /// Only VSA reads a gate. The dense steps of a gated checkpoint leave it alone.
    pub open spec fn gated(self, block: Block) -> bool {
        self.sparse == Some(Sparse::Vsa) && block.gate.layer is Some
    }

    pub open spec fn attending(self, block: Block) -> Attending {
        match self.sparse {
            Some(Sparse::Sol) => Attending::Sol,
            Some(Sparse::Vsa) => Attending::Vsa { gated: self.gated(block) },
            None => if self.quantized {
                Attending::DenseQuantized
            } else {
                Attending::Dense
            },
        }
    }
}

/// The regions of a block's q, k and v, and of its gate.
pub open spec fn reserving(shard: Shard, tokens: usize, gated: bool) -> Seq<ShardStep> {
    let inner = span_width(shard.heads@[shard.rank as int]);
    let inputs = seq![ShardStep::Reserve { region: Region::Inputs, bytes: (tokens * (3 * inner) * 2) as usize }];
    if gated {
        inputs + seq![ShardStep::Reserve { region: Region::Gate, bytes: (tokens * (inner * 2)) as usize }]
    } else {
        inputs
    }
}

/// The attention of this rank's heads over the whole sequence, which runs exactly as it does on one
/// machine. The peers are about to read what it writes.
pub open spec fn attending_steps(block: Block, shard: Shard, call: SharedCall) -> Seq<ShardStep> {
    let own = shard.heads@[shard.rank as int];
    let heads = own.size() as usize;
    let attending = call.attending(block);
    let prepared = attending != Attending::Dense;
    seq![
        ShardStep::Reserve { region: Region::Attended, bytes: (call.tokens * (span_width(own) * 2)) as usize },
        if prepared {
            ShardStep::PrepareInputs { attending, rows: call.tokens, heads, pairs: call.pairs }
        } else {
            ShardStep::QkNormRope { rows: call.tokens, heads, pairs: call.pairs }
        },
        ShardStep::Attend { attending, prepared, rows: call.tokens, heads },
        ShardStep::Synchronize,
        ShardStep::Charge(Phase::Attend),
    ]
}

/// The projections of this rank's own rows, which go while the peers' rows are still crossing the wire.
#[verifier::opaque]
pub open spec fn own_plan(block: Block, config: DitConfig, shard: Shard, call: SharedCall) -> SharedPlan {
    let rank = shard.rank as int;
    let gated = call.gated(block);
    plan::both(
        Ok(publishing(shard, config.hidden, call.tokens) + reserving(shard, call.tokens, gated)),
        plan::both(
            inputs_plan(block, config, shard.heads@[rank], shard.tokens@[rank], gated),
            Ok(seq![ShardStep::Charge(Phase::Attend)]),
        ),
    )
}

/// The attention of this rank's heads, and the exchange of what it wrote.
#[verifier::opaque]
pub open spec fn attended_plan(block: Block, config: DitConfig, shard: Shard, call: SharedCall) -> SharedPlan {
    if !block.query_norm {
        Err(model::missing_tensor(block.prefix@ + ".attn.q_norm.weight"@))
    } else if !block.key_norm {
        Err(model::missing_tensor(block.prefix@ + ".attn.k_norm.weight"@))
    } else {
        Ok(attending_steps(block, shard, call) + returning(shard, config, call.tokens))
    }
}

/// The attention of a shared-out block.
pub open spec fn shared_plan(block: Block, config: DitConfig, shard: Shard, call: SharedCall) -> SharedPlan {
    plan::both(
        own_plan(block, config, shard, call),
        plan::both(
            Ok(sending(shard, config.hidden) + fetching(shard, config.hidden)),
            plan::both(
                peers_plan(block, config, shard, call.gated(block), shard.tokens@.len() as int),
                attended_plan(block, config, shard, call),
            ),
        ),
    )
}

/// A refusal among the first ranks' rows is one of them all.
proof fn refusals_stay(block: Block, config: DitConfig, shard: Shard, gated: bool, count: int, all: int)
    requires
        0 <= count <= all,
        peers_plan(block, config, shard, gated, count) is Err,
    ensures
        peers_plan(block, config, shard, gated, all) == peers_plan(block, config, shard, gated, count),
    decreases all,
{
    if count < all {
        refusals_stay(block, config, shard, gated, count, all - 1);
    }
}

fn project_peers(
    block: &Block,
    config: &DitConfig,
    shard: &Shard,
    gated: bool,
    tokens: usize,
    steps: &mut Vec<ShardStep>,
) -> (result: Result<(), Error>)
    requires
        shares(*shard, *config, tokens),
    ensures
        plan::added(
            old(steps)@,
            final(steps)@,
            result,
            peers_plan(*block, *config, *shard, gated, shard.tokens@.len() as int),
        ),
{
    let ghost before = steps@;
    let own = shard.own_heads();
    let ranks: usize = shard.ranks();
    for peer in 0..ranks
        invariant
            ranks == shard.tokens@.len(),
            shares(*shard, *config, tokens),
            own == shard.heads@[shard.rank as int],
            plan::added(before, steps@, Ok(()), peers_plan(*block, *config, *shard, gated, peer as int)),
    {
        if peer != shard.rank {
            let ghost middle = steps@;
            let result = project_inputs(block, config, own, shard.tokens[peer], gated, tokens, steps);
            if result.is_err() {
                proof {
                    refusals_stay(*block, *config, *shard, gated, peer + 1, ranks as int);
                }
                return result;
            }
        }
    }
    Ok(())
}

fn project_own(block: &Block, config: &DitConfig, shard: &Shard, call: &SharedCall, steps: &mut Vec<ShardStep>) -> (result:
    Result<bool, Error>)
    requires
        shares(*shard, *config, call.tokens),
    ensures
        match own_plan(*block, *config, *shard, *call) {
            Ok(list) => result == Ok::<bool, Error>(call.gated(*block)) && final(steps)@ == old(steps)@ + list,
            Err(words) => result matches Err(error) && error.says(words),
        },
{
    proof {
        reveal(own_plan);
    }
    let ghost before = steps@;
    let tokens: usize = call.tokens;
    publish_inputs(shard, config, tokens, steps);
    let own = shard.own_heads();
    let rows = shard.own_tokens();
    proof {
        span_bytes(rows, own, *config, tokens);
        row_bytes(0, tokens as int, tokens as int, 3 * span_width(own), 3 * config.width());
    }
    let inner: usize = own.len() * HEAD_DIM;
    let vsa = match call.sparse {
        Some(Sparse::Vsa) => true,
        _ => false,
    };
    let gated = vsa && block.gate.layer.is_some();
    let ghost published = steps@;
    steps.push(ShardStep::Reserve { region: Region::Inputs, bytes: tokens * (3 * inner) * 2 });
    if gated {
        steps.push(ShardStep::Reserve { region: Region::Gate, bytes: tokens * (inner * 2) });
    }
    assert(steps@ =~= published + reserving(*shard, tokens, gated));
    assert(steps@ =~= before + (publishing(*shard, config.hidden, tokens) + reserving(*shard, tokens, gated)));
    project_inputs(block, config, own, rows, gated, tokens, steps)?;
    steps.push(ShardStep::Charge(Phase::Attend));
    proof {
        let list = own_plan(*block, *config, *shard, *call)->Ok_0;
        assert(steps@ =~= before + list);
    }
    Ok(gated)
}

fn attend_shared(
    block: &Block,
    config: &DitConfig,
    shard: &Shard,
    call: &SharedCall,
    gated: bool,
    steps: &mut Vec<ShardStep>,
) -> (result: Result<(), Error>)
    requires
        shares(*shard, *config, call.tokens),
        gated == call.gated(*block),
    ensures
        plan::added(old(steps)@, final(steps)@, result, attended_plan(*block, *config, *shard, *call)),
{
    proof {
        reveal(attended_plan);
    }
    if !block.query_norm {
        return Err(block.missing(".attn.q_norm.weight"));
    }
    if !block.key_norm {
        return Err(block.missing(".attn.k_norm.weight"));
    }
    let attending = match call.sparse {
        Some(Sparse::Sol) => Attending::Sol,
        Some(Sparse::Vsa) => Attending::Vsa { gated },
        None => if call.quantized {
            Attending::DenseQuantized
        } else {
            Attending::Dense
        },
    };
    let prepared = match attending {
        Attending::Dense => false,
        _ => true,
    };
    let own = shard.own_heads();
    let tokens: usize = call.tokens;
    proof {
        span_bytes(shard.tokens@[shard.rank as int], own, *config, tokens);
    }
    let heads: usize = own.len();
    let width: usize = heads * HEAD_DIM * 2;
    let ghost before = steps@;
    steps.push(ShardStep::Reserve { region: Region::Attended, bytes: tokens * width });
    if prepared {
        steps.push(ShardStep::PrepareInputs { attending, rows: tokens, heads, pairs: call.pairs });
    } else {
        steps.push(ShardStep::QkNormRope { rows: tokens, heads, pairs: call.pairs });
    }
    steps.push(ShardStep::Attend { attending, prepared, rows: tokens, heads });
    steps.push(ShardStep::Synchronize);
    steps.push(ShardStep::Charge(Phase::Attend));
    assert(steps@ =~= before + attending_steps(*block, *shard, *call));
    exchange_outputs(shard, config, tokens, steps);
    Ok(())
}

/// The actions of a shared-out block's attention, or why there are none.
pub fn sharded_attention(block: &Block, config: &DitConfig, shard: &Shard, call: &SharedCall) -> (steps: Result<
    Vec<ShardStep>,
    Error,
>)
    requires
        shares(*shard, *config, call.tokens),
    ensures
        match shared_plan(*block, *config, *shard, *call) {
            Ok(list) => steps matches Ok(steps) && steps@ == list,
            Err(words) => steps matches Err(error) && error.says(words),
        },
{
    let mut steps: Vec<ShardStep> = Vec::new();
    let gated = project_own(block, config, shard, call, &mut steps)?;
    send_inputs(shard, config, call.tokens, &mut steps);
    fetch_inputs(shard, config, call.tokens, &mut steps);
    project_peers(block, config, shard, gated, call.tokens, &mut steps)?;
    attend_shared(block, config, shard, call, gated, &mut steps)?;
    proof {
        let list = shared_plan(*block, *config, *shard, *call)->Ok_0;
        assert(steps@ =~= list);
    }
    Ok(steps)
}

/// Whether `part` stands somewhere in `list`, in one piece.
pub open spec fn stands_in(list: Seq<ShardStep>, part: Seq<ShardStep>, place: int) -> bool {
    &&& 0 <= place
    &&& place + part.len() <= list.len()
    &&& list.subrange(place, place + part.len()) == part
}

proof fn every_peer_is_served(shard: Shard, count: int, done: spec_fn(int) -> Seq<ShardStep>, peer: int) -> (place: int)
    requires
        0 <= peer < count,
        peer != shard.rank,
    ensures
        stands_in(for_peers(shard, count, done), done(peer), place),
    decreases count,
{
    if count - 1 == peer {
        let before = for_peers(shard, count - 1, done);
        assert(for_peers(shard, count, done).subrange(before.len() as int, (before.len() + done(peer).len()) as int)
            =~= done(peer));
        before.len() as int
    } else {
        let place = every_peer_is_served(shard, count - 1, done, peer);
        let before = for_peers(shard, count - 1, done);
        assert(for_peers(shard, count, done).subrange(place, place + done(peer).len()) =~= before.subrange(
            place,
            place + done(peer).len(),
        ));
        place
    }
}

/// Whether what is written to a peer is what the peer takes.
pub open spec fn meets(write: ShardStep, receive: ShardStep) -> bool {
    write matches ShardStep::Write { peer, from, from_offset, into, into_offset, bytes } && receive
        == (ShardStep::Receive { region: into, offset: into_offset, bytes })
}

proof fn inputs_are_sent(shard: Shard, hidden: usize, peer: int)
    requires
        shard.valid(),
        0 <= peer < shard.tokens@.len(),
        peer != shard.rank,
    ensures
        exists|place: int|
            stands_in(sending(shard, hidden), sent_to(shard.tokens@[shard.rank as int], hidden, peer), place),
{
    reveal(sending);
    let ranks = shard.tokens@.len() as int;
    let rows = shard.tokens@[shard.rank as int];
    let sent = sent_to(rows, hidden, peer);
    let send = |peer: int| sent_to(rows, hidden, peer);
    let place = every_peer_is_served(shard, ranks, send, peer);
    assert(sending(shard, hidden).subrange(place, place + sent.len()) =~= for_peers(shard, ranks, send).subrange(
        place,
        place + sent.len(),
    ));
    assert(stands_in(sending(shard, hidden), sent, place));
}

proof fn inputs_are_fetched(shard: Shard, hidden: usize, peer: int)
    requires
        shard.valid(),
        0 <= peer < shard.tokens@.len(),
        peer != shard.rank,
    ensures
        exists|place: int| stands_in(fetching(shard, hidden), fetched_from(shard.tokens@[peer], hidden), place),
{
    reveal(fetching);
    let ranks = shard.tokens@.len() as int;
    let fetched = fetched_from(shard.tokens@[peer], hidden);
    let fetch = |peer: int| fetched_from(shard.tokens@[peer], hidden);
    let at = every_peer_is_served(shard, ranks, fetch, peer);
    assert(fetching(shard, hidden).subrange(at + 2, at + 2 + fetched.len()) =~= for_peers(
        shard,
        ranks,
        fetch,
    ).subrange(at, at + fetched.len()));
    assert(stands_in(fetching(shard, hidden), fetched, at + 2));
}

/// Every rank sends its rows of the block input to every peer, to the very bytes that the peer takes from
/// it.
pub proof fn a_peer_takes_the_inputs_it_is_sent(one: Shard, other: Shard, hidden: usize)
    requires
        one.valid(),
        other.valid(),
        one.tokens@ == other.tokens@,
        one.rank != other.rank,
    ensures
        ({
            let sent = sent_to(one.tokens@[one.rank as int], hidden, other.rank as int);
            let fetched = fetched_from(other.tokens@[one.rank as int], hidden);
            &&& exists|place: int| stands_in(sending(one, hidden), sent, place)
            &&& exists|place: int| stands_in(fetching(other, hidden), fetched, place)
            &&& sent.len() == fetched.len()
            &&& forall|i: int| 0 <= i < sent.len() ==> meets(#[trigger] sent[i], fetched[i])
        }),
{
    inputs_are_sent(one, hidden, other.rank as int);
    inputs_are_fetched(other, hidden, one.rank as int);
}

/// Every rank sends its heads' attention of a peer's rows to that peer, to the very bytes that the peer
/// takes from it.
pub proof fn a_peer_takes_the_attention_it_is_sent(one: Shard, other: Shard, config: DitConfig, tokens: usize)
    requires
        one.valid(),
        other.valid(),
        one.tokens@ == other.tokens@,
        one.heads@ == other.heads@,
        one.rank != other.rank,
    ensures
        ({
            let returned = returned_to(one, other.rank as int);
            let arrived = arrived_from(other, one.rank as int);
            &&& exists|place: int| stands_in(returning(one, config, tokens), returned, place)
            &&& exists|place: int| stands_in(returning(other, config, tokens), arrived, place)
            &&& meets(returned[1], arrived[0])
        }),
{
    reveal(returning);
    let ranks = one.tokens@.len() as int;
    let returned = returned_to(one, other.rank as int);
    let arrived = arrived_from(other, one.rank as int);
    let give = |peer: int| returned_to(one, peer);
    let place = every_peer_is_served(one, ranks, give, other.rank as int);
    assert(returning(one, config, tokens).subrange(place + 2, place + 2 + returned.len()) =~= for_peers(
        one,
        ranks,
        give,
    ).subrange(place, place + returned.len()));
    assert(stands_in(returning(one, config, tokens), returned, place + 2));
    let take = |peer: int| arrived_from(other, peer);
    let at = every_peer_is_served(other, ranks, take, one.rank as int);
    let ahead = for_peers(other, ranks, |peer: int| returned_to(other, peer)).len() as int + 5;
    assert(returning(other, config, tokens).subrange(ahead + at, ahead + at + arrived.len()) =~= for_peers(
        other,
        ranks,
        take,
    ).subrange(at, at + arrived.len()));
    assert(stands_in(returning(other, config, tokens), arrived, ahead + at));
}

/// How many of the actions are of a kind.
pub open spec fn tally(list: Seq<ShardStep>, kind: spec_fn(ShardStep) -> bool) -> nat
    decreases list.len(),
{
    if list.len() == 0 {
        0
    } else {
        tally(list.drop_last(), kind) + (if kind(list.last()) {
            1nat
        } else {
            0nat
        })
    }
}

proof fn tallies_add(one: Seq<ShardStep>, other: Seq<ShardStep>, kind: spec_fn(ShardStep) -> bool)
    ensures
        tally(one + other, kind) == tally(one, kind) + tally(other, kind),
    decreases other.len(),
{
    if other.len() == 0 {
        assert(one + other =~= one);
    } else {
        tallies_add(one, other.drop_last(), kind);
        assert((one + other).drop_last() =~= one + other.drop_last());
        assert((one + other).last() == other.last());
    }
}

proof fn one_of_a_kind(step: ShardStep, kind: spec_fn(ShardStep) -> bool)
    ensures
        tally(seq![step], kind) == (if kind(step) {
            1nat
        } else {
            0nat
        }),
{
    reveal_with_fuel(tally, 2);
    assert(seq![step].drop_last() =~= Seq::<ShardStep>::empty());
}

proof fn none_of_a_kind(list: Seq<ShardStep>, kind: spec_fn(ShardStep) -> bool)
    requires
        forall|i: int| 0 <= i < list.len() ==> !kind(#[trigger] list[i]),
    ensures
        tally(list, kind) == 0,
    decreases list.len(),
{
    if list.len() > 0 {
        none_of_a_kind(list.drop_last(), kind);
    }
}

/// Whether an action scatters a head of this rank's rows to its place.
pub open spec fn unpacks(step: ShardStep, head: int) -> bool {
    step matches ShardStep::Unpack { region, offset, rows, heads, span } && span.contains(head)
}

proof fn heads_are_unpacked(shard: Shard, heads: usize, count: int, head: int)
    requires
        shard.valid(),
        0 <= count <= shard.heads@.len(),
    ensures
        tally(for_ranks(count, |peer: int| unpacked_from(shard, heads, peer)), |step: ShardStep| unpacks(step, head))
            == held(shard.heads@, head, count),
    decreases count,
{
    let kind = |step: ShardStep| unpacks(step, head);
    let done = |peer: int| unpacked_from(shard, heads, peer);
    if count > 0 {
        heads_are_unpacked(shard, heads, count - 1, head);
        let before = for_ranks(count - 1, done);
        let list = done(count - 1);
        tallies_add(before, list, kind);
        one_of_a_kind(list.last(), kind);
        assert(list =~= list.drop_last() + seq![list.last()]);
        tallies_add(list.drop_last(), seq![list.last()], kind);
        none_of_a_kind(list.drop_last(), kind);
    }
}

/// How many of the first `count` runs hold a place.
pub open spec fn held(runs: Seq<Run>, place: int, count: int) -> nat
    decreases count,
{
    if count <= 0 {
        0
    } else {
        held(runs, place, count - 1) + (if runs[count - 1].contains(place) {
            1nat
        } else {
            0nat
        })
    }
}

proof fn held_once(runs: Seq<Run>, total: int, place: int, count: int, holder: int)
    requires
        shard::is_partition(runs, total),
        0 <= place < total,
        0 <= holder < runs.len(),
        runs[holder].contains(place),
        0 <= count <= runs.len(),
    ensures
        held(runs, place, count) == (if holder < count {
            1nat
        } else {
            0nat
        }),
    decreases count,
{
    shard::a_partition_holds_each_place_once(runs, total, place);
    if count > 0 {
        held_once(runs, total, place, count - 1, holder);
        if runs[count - 1].contains(place) {
            assert(count - 1 == holder);
        }
    }
}

/// Every head of a rank's rows comes back to its place once, where the ranks' heads are all heads.
pub proof fn every_head_comes_back_once(shard: Shard, config: DitConfig, tokens: usize, head: int)
    requires
        shard.valid(),
        shard::is_partition(shard.heads@, config.heads as int),
        0 <= head < config.heads,
    ensures
        tally(returning(shard, config, tokens), |step: ShardStep| unpacks(step, head)) == 1,
{
    reveal(returning);
    let kind = |step: ShardStep| unpacks(step, head);
    let ranks = shard.tokens@.len() as int;
    let scattered = for_ranks(ranks, |peer: int| unpacked_from(shard, config.heads, peer));
    let charge = seq![ShardStep::Charge(Phase::Gather)];
    let list = returning(shard, config, tokens);
    let ahead = list.subrange(0, list.len() - 1 - scattered.len());
    assert(list =~= ahead + scattered + charge);
    tallies_add(ahead + scattered, charge, kind);
    tallies_add(ahead, scattered, kind);
    one_of_a_kind(ShardStep::Charge(Phase::Gather), kind);
    let give = for_peers(shard, ranks, |peer: int| returned_to(shard, peer));
    let take = for_peers(shard, ranks, |peer: int| arrived_from(shard, peer));
    peers_do_not_unpack(shard, ranks, |peer: int| returned_to(shard, peer));
    peers_do_not_unpack(shard, ranks, |peer: int| arrived_from(shard, peer));
    let width = span_width(shard.heads@[shard.rank as int]) * 2;
    let wait = seq![ShardStep::Charge(Phase::Read), ShardStep::Barrier, ShardStep::Charge(Phase::Barrier)];
    assert(ahead =~= seq![
        ShardStep::Reserve { region: Region::Attended, bytes: (tokens * width) as usize },
        ShardStep::Restart,
    ] + give + wait + take + wait);
    assert forall|i: int| 0 <= i < ahead.len() implies !kind(#[trigger] ahead[i]) by {
        let (first, second) = (2 + give.len() as int, 5 + give.len() as int);
        if 2 <= i < first {
            assert(ahead[i] == give[i - 2]);
        } else if second <= i < second + take.len() {
            assert(ahead[i] == take[i - second]);
        }
    }
    none_of_a_kind(ahead, kind);
    heads_are_unpacked(shard, config.heads, ranks, head);
    shard::a_partition_holds_each_place_once(shard.heads@, config.heads as int, head);
    let holder = choose|k: int| 0 <= k < shard.heads@.len() && #[trigger] shard.heads@[k].contains(head);
    held_once(shard.heads@, config.heads as int, head, ranks, holder);
}

proof fn peers_do_not_unpack(shard: Shard, count: int, done: spec_fn(int) -> Seq<ShardStep>)
    requires
        forall|peer: int, i: int| 0 <= i < done(peer).len() ==> !((#[trigger] done(peer)[i]) is Unpack),
    ensures
        forall|i: int|
            0 <= i < for_peers(shard, count, done).len() ==> !((#[trigger] for_peers(shard, count, done)[i])
                is Unpack),
    decreases count,
{
    if count > 0 {
        peers_do_not_unpack(shard, count - 1, done);
        let before = for_peers(shard, count - 1, done);
        let list = for_peers(shard, count, done);
        assert forall|i: int| 0 <= i < list.len() implies !((#[trigger] list[i]) is Unpack) by {
            if i < before.len() {
                assert(list[i] == before[i]);
            } else {
                assert(list[i] == done(count - 1)[i - before.len()]);
            }
        }
    }
}

/// Whether an action makes one of q, k and v, the one whose columns start at `column`, of a row.
pub open spec fn projects(step: ShardStep, row: int, column: int) -> bool {
    match step {
        ShardStep::Project { part, first, region, offset, step } => match step {
            LinearStep::Int8 { config, rows, first: begin, outputs, features, stride, swiglu, adapter } => part
                == Part::Qkv && begin == column && first <= row < first + rows,
            _ => false,
        },
        _ => false,
    }
}

proof fn rows_are_projected(block: Block, config: DitConfig, heads: Run, rows: Run, gated: bool, row: int, tensor: int)
    requires
        heads.start <= heads.end <= config.heads,
        rows.start <= rows.end,
        config.head_dim == HEAD_DIM,
        config.heads > 0,
        3 * config.width() <= usize::MAX,
        0 <= tensor < 3,
        inputs_plan(block, config, heads, rows, gated) is Ok,
    ensures
        tally(
            inputs_plan(block, config, heads, rows, gated)->Ok_0,
            |step: ShardStep| projects(step, row, tensor_columns(config, heads, tensor).start as int),
        ) == (if rows.contains(row) {
            1nat
        } else {
            0nat
        }),
{
    let kind = |step: ShardStep| projects(step, row, tensor_columns(config, heads, tensor).start as int);
    let list = inputs_plan(block, config, heads, rows, gated)->Ok_0;
    span_is_narrow(heads, config);
    if rows.size() > 0 {
        reveal(qkv_plan);
        reveal(gate_plan);
        let (steps, adapter) = model::quantized_adapter(
            block.name_of(Part::Qkv),
            block.qkv.adapter,
            rows.size() as usize,
        )->Ok_0;
        let down = downs(Part::Qkv, rows.start, steps);
        let zero = tensor_plan(block, config, heads, rows, 0, adapter)->Ok_0;
        let one = tensor_plan(block, config, heads, rows, 1, adapter)->Ok_0;
        let two = tensor_plan(block, config, heads, rows, 2, adapter)->Ok_0;
        let qkv = qkv_plan(block, config, heads, rows)->Ok_0;
        let gate = plan::when(gated, gate_plan(block, heads, rows))->Ok_0;
        assert(config.width() > 0) by (nonlinear_arith)
            requires
                config.width() == config.heads * config.head_dim,
                config.heads > 0,
                config.head_dim == 128,
        ;
        none_of_a_kind(down, kind);
        none_of_a_kind(gate, kind);
        one_of_a_kind(zero[0], kind);
        one_of_a_kind(one[0], kind);
        one_of_a_kind(two[0], kind);
        assert(zero =~= seq![zero[0]] && one =~= seq![one[0]] && two =~= seq![two[0]]);
        assert(qkv == down + (zero + (one + two)));
        tallies_add(one, two, kind);
        tallies_add(zero, one + two, kind);
        tallies_add(down, zero + (one + two), kind);
        tallies_add(qkv, gate, kind);
    }
}

proof fn peers_are_projected(
    block: Block,
    config: DitConfig,
    shard: Shard,
    gated: bool,
    count: int,
    row: int,
    tensor: int,
)
    requires
        shard.valid(),
        0 <= count <= shard.tokens@.len(),
        shard.heads@[shard.rank as int].end <= config.heads,
        config.head_dim == HEAD_DIM,
        config.heads > 0,
        3 * config.width() <= usize::MAX,
        0 <= tensor < 3,
        peers_plan(block, config, shard, gated, count) is Ok,
    ensures
        tally(
            peers_plan(block, config, shard, gated, count)->Ok_0,
            |step: ShardStep|
                projects(
                    step,
                    row,
                    tensor_columns(config, shard.heads@[shard.rank as int], tensor).start as int,
                ),
        ) + (if shard.rank < count && shard.tokens@[shard.rank as int].contains(row) {
            1nat
        } else {
            0nat
        }) == held(shard.tokens@, row, count),
    decreases count,
{
    let own = shard.heads@[shard.rank as int];
    let kind = |step: ShardStep| projects(step, row, tensor_columns(config, own, tensor).start as int);
    if count > 0 {
        peers_are_projected(block, config, shard, gated, count - 1, row, tensor);
        if count - 1 != shard.rank {
            let before = peers_plan(block, config, shard, gated, count - 1)->Ok_0;
            let list = inputs_plan(block, config, own, shard.tokens@[count - 1], gated)->Ok_0;
            rows_are_projected(block, config, own, shard.tokens@[count - 1], gated, row, tensor);
            tallies_add(before, list, kind);
        } else {
            let before = peers_plan(block, config, shard, gated, count - 1)->Ok_0;
            assert(before + Seq::<ShardStep>::empty() =~= before);
        }
    }
}

/// Each of q, k and v of every row of the sequence is made once, where the ranks' rows are all rows: of
/// this rank's own rows while the peers' are still on their way, and of the peers' rows after that.
pub proof fn every_row_is_projected_once(
    block: Block,
    config: DitConfig,
    shard: Shard,
    gated: bool,
    tokens: int,
    row: int,
    tensor: int,
)
    requires
        shard.valid(),
        shard::is_partition(shard.tokens@, tokens),
        shard.heads@[shard.rank as int].end <= config.heads,
        config.head_dim == HEAD_DIM,
        config.heads > 0,
        3 * config.width() <= usize::MAX,
        0 <= tensor < 3,
        0 <= row < tokens,
        inputs_plan(
            block,
            config,
            shard.heads@[shard.rank as int],
            shard.tokens@[shard.rank as int],
            gated,
        ) is Ok,
        peers_plan(block, config, shard, gated, shard.tokens@.len() as int) is Ok,
    ensures
        ({
            let own = shard.heads@[shard.rank as int];
            let kind = |step: ShardStep| projects(step, row, tensor_columns(config, own, tensor).start as int);
            tally(inputs_plan(block, config, own, shard.tokens@[shard.rank as int], gated)->Ok_0, kind) + tally(
                peers_plan(block, config, shard, gated, shard.tokens@.len() as int)->Ok_0,
                kind,
            ) == 1
        }),
{
    let own = shard.heads@[shard.rank as int];
    let ranks = shard.tokens@.len() as int;
    rows_are_projected(block, config, own, shard.tokens@[shard.rank as int], gated, row, tensor);
    peers_are_projected(block, config, shard, gated, ranks, row, tensor);
    shard::a_partition_holds_each_place_once(shard.tokens@, tokens, row);
    let holder = choose|k: int| 0 <= k < ranks && #[trigger] shard.tokens@[k].contains(row);
    held_once(shard.tokens@, tokens, row, ranks, holder);
}

} // verus!
