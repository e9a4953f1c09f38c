//! The regions of a shared-out attention, which hold what each rank reads and writes of every token.
use crate::attention::HEAD_DIM;
use crate::block::{Block, Part};
use crate::exchange;
use crate::exchange::{Phase, ShardStep, SharedCall, SharedPlan};
use crate::model;
use crate::model::{AdapterPart, LinearStep};
use crate::plan;
use crate::shard::{Region, Shard};
use crate::workspace::DitConfig;
use vstd::prelude::*;

verus! {

/// The bytes of a rank's region.
pub open spec fn room(shard: Shard, config: DitConfig, tokens: usize, rank: int, region: Region) -> int {
    let inner = exchange::span_width(shard.heads@[rank]);
    match region {
        Region::Normalized => tokens * config.hidden,
        Region::Scales => tokens * 4,
        Region::Inputs => tokens * (3 * inner) * 2,
        Region::Gate | Region::Attended => tokens * (inner * 2),
        Region::Received(peer) => shard.tokens@[rank].size() * (exchange::span_width(shard.heads@[peer as int]) * 2),
    }
}

/// Whether an action stays inside the regions it reads and writes, this rank's and those of its peers, and a region is
/// made as large as its bytes.
pub open spec fn stays(shard: Shard, config: DitConfig, tokens: usize, step: ShardStep) -> bool {
    let rank = shard.rank as int;
    let holds = |rank: int, region: Region, past: int| past <= room(shard, config, tokens, rank, region);
    match step {
        ShardStep::Reserve { region, bytes } => bytes == room(shard, config, tokens, rank, region),
        ShardStep::CopyRows { offset, bytes } => holds(rank, Region::Normalized, offset + bytes),
        ShardStep::CopyScales { offset, bytes } => holds(rank, Region::Scales, offset + bytes),
        ShardStep::Publish { region, offset, bytes } | ShardStep::Receive { region, offset, bytes } => holds(
            rank,
            region,
            offset + bytes,
        ),
        ShardStep::Write { peer, from, from_offset, into, into_offset, bytes } => {
            &&& peer < shard.tokens@.len()
            &&& holds(rank, from, from_offset + bytes)
            &&& holds(peer as int, into, into_offset + bytes)
        },
        ShardStep::Down { part, first, step } => {
            &&& step matches LinearStep::QuantizedDown { config: _, rows, columns, inputs }
            &&& holds(rank, Region::Normalized, first * config.hidden + rows * inputs)
            &&& holds(rank, Region::Scales, first * 4 + rows * 4)
        },
        ShardStep::Project { part, first, region, offset, step } => {
            &&& step matches LinearStep::Int8 { config: _, rows, first: _, outputs, features, stride, swiglu: _, adapter: _ }
            &&& holds(rank, Region::Normalized, first * config.hidden + rows * features)
            &&& holds(rank, Region::Scales, first * 4 + rows * 4)
            &&& holds(
                rank,
                region,
                offset + ((rows - 1) * (if stride == 0 {
                    outputs
                } else {
                    stride
                }) + outputs) * 2,
            )
        },
        ShardStep::PrepareInputs { attending, rows, heads, pairs } => holds(
            rank,
            Region::Inputs,
            rows * (3 * (heads * HEAD_DIM)) * 2,
        ),
        ShardStep::QkNormRope { rows, heads, pairs } => holds(rank, Region::Inputs, rows * (3 * (heads * HEAD_DIM)) * 2),
        ShardStep::Attend { attending, prepared, rows, heads } => {
            &&& holds(rank, Region::Inputs, rows * (3 * (heads * HEAD_DIM)) * 2)
            &&& holds(rank, Region::Gate, rows * (heads * HEAD_DIM * 2))
            &&& holds(rank, Region::Attended, rows * (heads * HEAD_DIM * 2))
        },
        ShardStep::Unpack { region, offset, rows, heads, span } => {
            &&& rows == shard.tokens@[rank].size()
            &&& span.end <= heads
            &&& holds(rank, region, offset + rows * (exchange::span_width(span) * 2))
        },
        ShardStep::Synchronize | ShardStep::Barrier | ShardStep::Charge(_) | ShardStep::Restart => true,
    }
}

spec fn all_stay(shard: Shard, config: DitConfig, tokens: usize, steps: Seq<ShardStep>) -> bool {
    forall|i: int| 0 <= i < steps.len() ==> stays(shard, config, tokens, #[trigger] steps[i])
}

spec fn plan_stays(shard: Shard, config: DitConfig, tokens: usize, plan: SharedPlan) -> bool {
    plan matches Ok(steps) ==> all_stay(shard, config, tokens, steps)
}

proof fn both_stay(shard: Shard, config: DitConfig, tokens: usize, one: Seq<ShardStep>, other: Seq<ShardStep>)
    requires
        all_stay(shard, config, tokens, one),
        all_stay(shard, config, tokens, other),
    ensures
        all_stay(shard, config, tokens, one + other),
{
    let all = one + other;
    assert forall|i: int| 0 <= i < all.len() implies stays(shard, config, tokens, #[trigger] all[i]) by {
        if i < one.len() {
            assert(all[i] == one[i]);
        } else {
            assert(all[i] == other[i - one.len()]);
        }
    }
}

proof fn both_plans_stay(shard: Shard, config: DitConfig, tokens: usize, one: SharedPlan, other: SharedPlan)
    requires
        plan_stays(shard, config, tokens, one),
        plan_stays(shard, config, tokens, other),
    ensures
        plan_stays(shard, config, tokens, plan::both(one, other)),
{
    if let (Ok(first), Ok(second)) = (one, other) {
        both_stay(shard, config, tokens, first, second);
    }
}

proof fn peers_stay(shard: Shard, config: DitConfig, tokens: usize, count: int, done: spec_fn(int) -> Seq<ShardStep>)
    requires
        forall|peer: int| 0 <= peer < count && peer != shard.rank ==> all_stay(shard, config, tokens, #[trigger] done(peer)),
    ensures
        all_stay(shard, config, tokens, exchange::for_peers(shard, count, done)),
    decreases count,
{
    if count > 0 {
        peers_stay(shard, config, tokens, count - 1, done);
        if count - 1 != shard.rank {
            both_stay(shard, config, tokens, exchange::for_peers(shard, count - 1, done), done(count - 1));
        }
    }
}

proof fn ranks_stay(shard: Shard, config: DitConfig, tokens: usize, count: int, done: spec_fn(int) -> Seq<ShardStep>)
    requires
        forall|peer: int| 0 <= peer < count ==> all_stay(shard, config, tokens, #[trigger] done(peer)),
    ensures
        all_stay(shard, config, tokens, exchange::for_ranks(count, done)),
    decreases count,
{
    if count > 0 {
        ranks_stay(shard, config, tokens, count - 1, done);
        both_stay(shard, config, tokens, exchange::for_ranks(count - 1, done), done(count - 1));
    }
}

/// The rows of a run, and those before it, are bytes of the regions of every row.
proof fn a_run_has_room(shard: Shard, config: DitConfig, tokens: usize, peer: int, heads: int)
    requires
        exchange::shares(shard, config, tokens),
        0 <= peer < shard.tokens@.len(),
        0 <= heads < shard.heads@.len(),
    ensures
        ({
            let rows = shard.tokens@[peer];
            let width = exchange::span_width(shard.heads@[heads]) * 2;
            &&& 0 <= rows.start * config.hidden <= usize::MAX
            &&& 0 <= rows.size() * config.hidden <= usize::MAX
            &&& rows.start * config.hidden + rows.size() * config.hidden <= tokens * config.hidden
            &&& rows.start * 4 + rows.size() * 4 <= tokens * 4
            &&& 0 <= rows.start * width <= usize::MAX
            &&& 0 <= rows.size() * width <= usize::MAX
            &&& rows.start * width + rows.size() * width <= tokens * width
            &&& 0 <= tokens * width <= usize::MAX
        }),
{
    let rows = shard.tokens@[peer];
    let span = shard.heads@[heads];
    let hidden = config.hidden as int;
    exchange::row_bytes(rows.start as int, rows.size(), tokens as int, hidden, hidden);
    exchange::span_bytes(rows, span, config, tokens);
    let width = exchange::span_width(span) * 2;
    exchange::row_bytes(rows.start as int, rows.size(), tokens as int, width, width);
}

proof fn publishing_stays(shard: Shard, config: DitConfig, tokens: usize, gated: bool)
    requires
        exchange::shares(shard, config, tokens),
    ensures
        all_stay(shard, config, tokens, exchange::publishing(shard, config.hidden, tokens)),
        all_stay(shard, config, tokens, exchange::reserving(shard, tokens, gated)),
{
    reveal(exchange::publishing);
    let rank = shard.rank as int;
    a_run_has_room(shard, config, tokens, rank, rank);
    let inner = exchange::span_width(shard.heads@[rank]);
    exchange::span_is_narrow(shard.heads@[rank], config);
    exchange::row_bytes(0, tokens as int, tokens as int, 3 * inner, 3 * config.width());
}

proof fn sending_stays(shard: Shard, config: DitConfig, tokens: usize)
    requires
        exchange::shares(shard, config, tokens),
    ensures
        all_stay(shard, config, tokens, exchange::sending(shard, config.hidden)),
        all_stay(shard, config, tokens, exchange::fetching(shard, config.hidden)),
{
    reveal(exchange::sending);
    reveal(exchange::fetching);
    let (rank, hidden, ranks) = (shard.rank as int, config.hidden, shard.tokens@.len() as int);
    let rows = shard.tokens@[rank];
    let sent = |peer: int| exchange::sent_to(rows, hidden, peer);
    let fetched = |peer: int| exchange::fetched_from(shard.tokens@[peer], hidden);
    assert(shard.tokens.len() == shard.tokens@.len());
    assert forall|peer: int| 0 <= peer < ranks && peer != rank implies all_stay(
        shard,
        config,
        tokens,
        #[trigger] sent(peer),
    ) by {
        a_run_has_room(shard, config, tokens, rank, rank);
    }
    assert forall|peer: int| 0 <= peer < ranks && peer != rank implies all_stay(
        shard,
        config,
        tokens,
        #[trigger] fetched(peer),
    ) by {
        a_run_has_room(shard, config, tokens, peer, rank);
    }
    peers_stay(shard, config, tokens, ranks, sent);
    peers_stay(shard, config, tokens, ranks, fetched);
    let start = seq![ShardStep::Barrier, ShardStep::Charge(Phase::Barrier)];
    let end = seq![ShardStep::Charge(Phase::Read), ShardStep::Barrier, ShardStep::Charge(Phase::Barrier)];
    both_stay(shard, config, tokens, exchange::for_peers(shard, ranks, sent), seq![ShardStep::Charge(Phase::Read)]);
    both_stay(shard, config, tokens, start, exchange::for_peers(shard, ranks, fetched));
    both_stay(shard, config, tokens, start + exchange::for_peers(shard, ranks, fetched), end);
}

proof fn returning_stays(shard: Shard, config: DitConfig, tokens: usize)
    requires
        exchange::shares(shard, config, tokens),
    ensures
        all_stay(shard, config, tokens, exchange::returning(shard, config, tokens)),
{
    reveal(exchange::returning);
    let (rank, ranks) = (shard.rank as int, shard.tokens@.len() as int);
    let width = exchange::span_width(shard.heads@[rank]) * 2;
    assert(shard.tokens.len() == shard.tokens@.len());
    a_run_has_room(shard, config, tokens, rank, rank);
    let returned = |peer: int| exchange::returned_to(shard, peer);
    let arrived = |peer: int| exchange::arrived_from(shard, peer);
    let unpacked = |peer: int| exchange::unpacked_from(shard, config.heads, peer);
    assert forall|peer: int| 0 <= peer < ranks && peer != rank implies all_stay(
        shard,
        config,
        tokens,
        #[trigger] returned(peer),
    ) by {
        a_run_has_room(shard, config, tokens, peer, rank);
    }
    assert forall|peer: int| 0 <= peer < ranks && peer != rank implies all_stay(
        shard,
        config,
        tokens,
        #[trigger] arrived(peer),
    ) by {
        a_run_has_room(shard, config, tokens, rank, peer);
    }
    assert forall|peer: int| 0 <= peer < ranks implies all_stay(shard, config, tokens, #[trigger] unpacked(peer)) by {
        a_run_has_room(shard, config, tokens, rank, peer);
    }
    peers_stay(shard, config, tokens, ranks, returned);
    peers_stay(shard, config, tokens, ranks, arrived);
    ranks_stay(shard, config, tokens, ranks, unpacked);
    let reserve = seq![
        ShardStep::Reserve { region: Region::Attended, bytes: (tokens * width) as usize },
        ShardStep::Restart,
    ];
    let wait = seq![ShardStep::Charge(Phase::Read), ShardStep::Barrier, ShardStep::Charge(Phase::Barrier)];
    let one = reserve + exchange::for_peers(shard, ranks, returned);
    let two = one + wait + exchange::for_peers(shard, ranks, arrived);
    both_stay(shard, config, tokens, reserve, exchange::for_peers(shard, ranks, returned));
    both_stay(shard, config, tokens, one, wait);
    both_stay(shard, config, tokens, one + wait, exchange::for_peers(shard, ranks, arrived));
    both_stay(shard, config, tokens, two, wait);
    both_stay(shard, config, tokens, two + wait, exchange::for_ranks(ranks, unpacked));
    both_stay(
        shard,
        config,
        tokens,
        two + wait + exchange::for_ranks(ranks, unpacked),
        seq![ShardStep::Charge(Phase::Gather)],
    );
}

/// Whether the projections of a block read its hidden values.
pub open spec fn reads_hidden(block: Block, config: DitConfig) -> bool {
    &&& block.qkv.layer matches Some(layer) ==> layer.features == config.hidden
    &&& block.qkv.adapter matches Some(adapter) ==> adapter.inputs == config.hidden
    &&& block.gate.layer matches Some(layer) ==> layer.features == config.hidden
    &&& block.gate.adapter matches Some(adapter) ==> adapter.inputs == config.hidden
}

proof fn a_tensor_stays(
    block: Block,
    config: DitConfig,
    shard: Shard,
    tokens: usize,
    peer: int,
    tensor: int,
    adapter: Option<AdapterPart>,
)
    requires
        exchange::shares(shard, config, tokens),
        reads_hidden(block, config),
        0 <= peer < shard.tokens@.len(),
        shard.tokens@[peer].size() > 0,
        0 <= tensor < 3,
    ensures
        plan_stays(
            shard,
            config,
            tokens,
            exchange::tensor_plan(block, config, shard.heads@[shard.rank as int], shard.tokens@[peer], tensor, adapter),
        ),
{
    let heads = shard.heads@[shard.rank as int];
    let rows = shard.tokens@[peer];
    let inner = exchange::span_width(heads);
    a_run_has_room(shard, config, tokens, peer, shard.rank as int);
    exchange::span_is_narrow(heads, config);
    let columns = exchange::tensor_columns(config, heads, tensor);
    let whole = config.width();
    assert(0 <= tensor * whole && tensor * whole + whole <= 3 * whole) by (nonlinear_arith)
        requires
            0 <= tensor <= 2,
            whole >= 0,
    ;
    assert(columns.size() == inner);
    let (row, count) = (rows.start as int, rows.size());
    exchange::row_bytes(row, count, tokens as int, 3 * inner, 3 * whole);
    assert(0 <= tensor * inner && tensor * inner + inner <= 3 * inner) by (nonlinear_arith)
        requires
            0 <= tensor <= 2,
            inner >= 0,
    ;
    assert(count * (3 * inner) == (count - 1) * (3 * inner) + 3 * inner) by (nonlinear_arith);
    assert(0 <= (count - 1) * (3 * inner)) by (nonlinear_arith)
        requires
            count >= 1,
            inner >= 0,
    ;
    assert((row * (3 * inner) + tensor * inner) * 2 <= usize::MAX);
    assert(row * (3 * inner) + tensor * inner + (count - 1) * (3 * inner) + inner <= tokens * (3 * inner));
}

proof fn inputs_stay(block: Block, config: DitConfig, shard: Shard, tokens: usize, peer: int, gated: bool)
    requires
        exchange::shares(shard, config, tokens),
        reads_hidden(block, config),
        0 <= peer < shard.tokens@.len(),
    ensures
        plan_stays(
            shard,
            config,
            tokens,
            exchange::inputs_plan(block, config, shard.heads@[shard.rank as int], shard.tokens@[peer], gated),
        ),
{
    reveal(exchange::qkv_plan);
    reveal(exchange::gate_plan);
    let heads = shard.heads@[shard.rank as int];
    let rows = shard.tokens@[peer];
    if rows.size() > 0 {
        let count = rows.size() as usize;
        a_run_has_room(shard, config, tokens, peer, shard.rank as int);
        if let Ok((steps, adapter)) = model::quantized_adapter(block.name_of(Part::Qkv), block.qkv.adapter, count) {
            a_tensor_stays(block, config, shard, tokens, peer, 0, adapter);
            a_tensor_stays(block, config, shard, tokens, peer, 1, adapter);
            a_tensor_stays(block, config, shard, tokens, peer, 2, adapter);
            let down: SharedPlan = Ok(exchange::downs(Part::Qkv, rows.start, steps));
            let one = exchange::tensor_plan(block, config, heads, rows, 0, adapter);
            let two = exchange::tensor_plan(block, config, heads, rows, 1, adapter);
            let three = exchange::tensor_plan(block, config, heads, rows, 2, adapter);
            assert(plan_stays(shard, config, tokens, down));
            both_plans_stay(shard, config, tokens, two, three);
            both_plans_stay(shard, config, tokens, one, plan::both(two, three));
            both_plans_stay(shard, config, tokens, down, plan::both(one, plan::both(two, three)));
        }
        assert(plan_stays(shard, config, tokens, exchange::qkv_plan(block, config, heads, rows)));
        gates_stay(block, config, shard, tokens, peer);
        both_plans_stay(
            shard,
            config,
            tokens,
            exchange::qkv_plan(block, config, heads, rows),
            plan::when(gated, exchange::gate_plan(block, heads, rows)),
        );
    }
}

proof fn gates_stay(block: Block, config: DitConfig, shard: Shard, tokens: usize, peer: int)
    requires
        exchange::shares(shard, config, tokens),
        reads_hidden(block, config),
        0 <= peer < shard.tokens@.len(),
        shard.tokens@[peer].size() > 0,
    ensures
        plan_stays(
            shard,
            config,
            tokens,
            exchange::gate_plan(block, shard.heads@[shard.rank as int], shard.tokens@[peer]),
        ),
{
    reveal(exchange::gate_plan);
    let heads = shard.heads@[shard.rank as int];
    let rows = shard.tokens@[peer];
    let inner = exchange::span_width(heads);
    let (row, count) = (rows.start as int, rows.size());
    a_run_has_room(shard, config, tokens, peer, shard.rank as int);
    exchange::span_is_narrow(heads, config);
    assert(count * (inner * 2) == ((count - 1) * inner + inner) * 2) by (nonlinear_arith);
    assert(row * (inner * 2) == row * inner * 2) by (nonlinear_arith);
    if let Ok((steps, adapter)) = model::quantized_adapter(block.name_of(Part::Gate), block.gate.adapter, count as usize) {
        assert(all_stay(shard, config, tokens, exchange::downs(Part::Gate, rows.start, steps)));
        if let Ok(all) = exchange::gate_plan(block, heads, rows) {
            both_stay(
                shard,
                config,
                tokens,
                exchange::downs(Part::Gate, rows.start, steps),
                seq![all[all.len() - 1]],
            );
        }
    }
}

proof fn peers_plans_stay(block: Block, config: DitConfig, shard: Shard, tokens: usize, gated: bool, count: int)
    requires
        exchange::shares(shard, config, tokens),
        reads_hidden(block, config),
        count <= shard.tokens@.len(),
    ensures
        plan_stays(shard, config, tokens, exchange::peers_plan(block, config, shard, gated, count)),
    decreases count,
{
    if count > 0 {
        peers_plans_stay(block, config, shard, tokens, gated, count - 1);
        inputs_stay(block, config, shard, tokens, count - 1, gated);
        let own = shard.heads@[shard.rank as int];
        both_plans_stay(
            shard,
            config,
            tokens,
            exchange::peers_plan(block, config, shard, gated, count - 1),
            plan::when(
                count - 1 != shard.rank,
                exchange::inputs_plan(block, config, own, shard.tokens@[count - 1], gated),
            ),
        );
    }
}

/// Every action of a shared-out attention stays inside the regions of its rank and of its peers.
pub proof fn a_shared_attention_stays_in_its_regions(
    block: Block,
    config: DitConfig,
    shard: Shard,
    call: SharedCall,
    step: int,
)
    requires
        exchange::shares(shard, config, call.tokens),
        reads_hidden(block, config),
        exchange::shared_plan(block, config, shard, call) is Ok,
        0 <= step < exchange::shared_plan(block, config, shard, call)->Ok_0.len(),
    ensures
        stays(shard, config, call.tokens, exchange::shared_plan(block, config, shard, call)->Ok_0[step]),
{
    reveal(exchange::own_plan);
    reveal(exchange::attended_plan);
    let (tokens, gated, rank) = (call.tokens, call.gated(block), shard.rank as int);
    let ranks = shard.tokens@.len() as int;
    publishing_stays(shard, config, tokens, gated);
    sending_stays(shard, config, tokens);
    returning_stays(shard, config, tokens);
    inputs_stay(block, config, shard, tokens, rank, gated);
    peers_plans_stay(block, config, shard, tokens, gated, ranks);
    a_run_has_room(shard, config, tokens, rank, rank);
    let own = shard.heads@[rank];
    exchange::span_is_narrow(own, config);
    assert(all_stay(shard, config, tokens, exchange::attending_steps(block, shard, call)));
    both_stay(shard, config, tokens, exchange::attending_steps(block, shard, call), exchange::returning(shard, config, tokens));
    let first: SharedPlan = Ok(exchange::publishing(shard, config.hidden, tokens) + exchange::reserving(shard, tokens, gated));
    both_stay(shard, config, tokens, exchange::publishing(shard, config.hidden, tokens), exchange::reserving(shard, tokens, gated));
    let inputs = exchange::inputs_plan(block, config, own, shard.tokens@[rank], gated);
    let charge: SharedPlan = Ok(seq![ShardStep::Charge(Phase::Attend)]);
    both_plans_stay(shard, config, tokens, inputs, charge);
    both_plans_stay(shard, config, tokens, first, plan::both(inputs, charge));
    both_stay(shard, config, tokens, exchange::sending(shard, config.hidden), exchange::fetching(shard, config.hidden));
    let crossing: SharedPlan = Ok(exchange::sending(shard, config.hidden) + exchange::fetching(shard, config.hidden));
    let peers = exchange::peers_plan(block, config, shard, gated, ranks);
    let attended = exchange::attended_plan(block, config, shard, call);
    both_plans_stay(shard, config, tokens, peers, attended);
    both_plans_stay(shard, config, tokens, crossing, plan::both(peers, attended));
    both_plans_stay(
        shard,
        config,
        tokens,
        exchange::own_plan(block, config, shard, call),
        plan::both(crossing, plan::both(peers, attended)),
    );
}

} // verus!
