//! A step shared out to one rank alone: it is the step that is not shared out at all.
use crate::block::{Block, BlockCall, BlockStep};
use crate::dit::CudaDit;
use crate::exchange;
use crate::exchange::{ShardStep, SharedCall};
use crate::forward;
use crate::forward::{Cached, Forward, PackedLayout, Projection, RunCall, VelocityPart};
use crate::plan;
use crate::shard;
use crate::shard::{Run, Shard};
use crate::workspace::DitConfig;
use vstd::prelude::*;

verus! {

/// Whether one rank alone has every row and every head.
pub open spec fn is_alone(shard: Shard, tokens: usize, heads: usize) -> bool {
    &&& shard.rank == 0
    &&& shard.tokens@ == seq![Run { start: 0, end: tokens }]
    &&& shard.heads@ == seq![Run { start: 0, end: heads }]
}

/// A rank alone carries the rows, the heads and the launches of the step that is not shared out, in a workspace of the
/// same shape.
pub proof fn one_rank_runs_the_whole(
    dit: CudaDit,
    layout: PackedLayout,
    shared: RunCall,
    call: RunCall,
    cached: Cached,
    one: Forward,
    whole: Forward,
)
    requires
        shared.shard matches Some(shard) && is_alone(shard, layout.total(), dit.config.heads),
        call.shard is None,
        shared.text_tokens == call.text_tokens,
        shared.capture@ == call.capture@,
        shared.sparse == call.sparse,
        dit.is_run(layout, shared, cached, one),
        dit.is_run(layout, call, cached, whole),
    ensures
        one.rows == whole.rows,
        one.heads == whole.heads,
        one.tokens == whole.tokens,
        one.shape == whole.shape,
        one.reused == whole.reused,
        one.method == whole.method,
        one.quantized == whole.quantized,
        one.kept_quantized == whole.kept_quantized,
        one.kept_sparse == whole.kept_sparse,
        one.kept_vsa == whole.kept_vsa,
        one.text == whole.text,
        one.head == whole.head,
        one.launches(dit.config, call.text_tokens) == whole.launches(dit.config, call.text_tokens),
{
    let (a, b) = (one.shape, whole.shape);
    assert(a.adapter_rank == b.adapter_rank) by {
        let adapters = dit.adapters@;
        if a.adapter_rank > 0 {
            let name = choose|name: Seq<char>|
                #[trigger] adapters.dom().contains(name) && adapters[name].scratch() == a.adapter_rank;
            assert(adapters[name].scratch() <= b.adapter_rank);
        }
        if b.adapter_rank > 0 {
            let name = choose|name: Seq<char>|
                #[trigger] adapters.dom().contains(name) && adapters[name].scratch() == b.adapter_rank;
            assert(adapters[name].scratch() <= a.adapter_rank);
        }
    }
    let weights = dit.nvfp4@;
    assert(a.nvfp4_columns == b.nvfp4_columns) by {
        if a.nvfp4_columns > 0 {
            let name = choose|name: Seq<char>|
                #[trigger] weights.dom().contains(name) && weights[name].columns == a.nvfp4_columns;
            assert(weights[name].columns <= b.nvfp4_columns);
        }
        if b.nvfp4_columns > 0 {
            let name = choose|name: Seq<char>|
                #[trigger] weights.dom().contains(name) && weights[name].columns == b.nvfp4_columns;
            assert(weights[name].columns <= a.nvfp4_columns);
        }
    }
    assert(a.nvfp4_adapter_rank == b.nvfp4_adapter_rank) by {
        if a.nvfp4_adapter_rank > 0 {
            let name = choose|name: Seq<char>|
                #[trigger] weights.dom().contains(name) && weights[name].rank == a.nvfp4_adapter_rank;
            assert(weights[name].rank <= b.nvfp4_adapter_rank);
        }
        if b.nvfp4_adapter_rank > 0 {
            let name = choose|name: Seq<char>|
                #[trigger] weights.dom().contains(name) && weights[name].rank == b.nvfp4_adapter_rank;
            assert(weights[name].rank <= a.nvfp4_adapter_rank);
        }
    }
}

/// What a rank alone waits for between its projections and its attention.
pub open spec fn waiting() -> Seq<ShardStep> {
    seq![
        ShardStep::Charge(exchange::Phase::Read),
        ShardStep::Barrier,
        ShardStep::Charge(exchange::Phase::Barrier),
        ShardStep::Charge(exchange::Phase::Read),
        ShardStep::Barrier,
        ShardStep::Charge(exchange::Phase::Barrier),
    ]
}

/// Whether an action sends anything to a peer or takes anything from one.
pub open spec fn crosses(step: ShardStep) -> bool {
    step is Write || step is Receive
}

spec fn none_crosses(steps: Seq<ShardStep>) -> bool {
    forall|i: int| 0 <= i < steps.len() ==> !crosses(#[trigger] steps[i])
}

proof fn neither_crosses(one: Seq<ShardStep>, other: Seq<ShardStep>)
    requires
        none_crosses(one),
        none_crosses(other),
    ensures
        none_crosses(one + other),
{
    assert forall|i: int| 0 <= i < (one + other).len() implies !crosses(#[trigger] (one + other)[i]) by {
        if i < one.len() {
            assert((one + other)[i] == one[i]);
        } else {
            assert((one + other)[i] == other[i - one.len()]);
        }
    }
}

proof fn projections_do_not_cross(block: Block, config: DitConfig, heads: Run, rows: Run, gated: bool)
    ensures
        exchange::inputs_plan(block, config, heads, rows, gated) matches Ok(steps) ==> none_crosses(steps),
{
    reveal(exchange::qkv_plan);
    reveal(exchange::gate_plan);
}

/// A rank alone projects its rows, which are all of them, attends with its heads, which are all of them, and neither
/// sends nor receives anything.
pub proof fn one_rank_exchanges_nothing(block: Block, config: DitConfig, shard: Shard, call: SharedCall)
    requires
        is_alone(shard, call.tokens, config.heads),
    ensures
        exchange::shared_plan(block, config, shard, call) == plan::both(
            exchange::own_plan(block, config, shard, call),
            plan::both(Ok(waiting()), exchange::attended_plan(block, config, shard, call)),
        ),
        exchange::shared_plan(block, config, shard, call) matches Ok(steps) ==> forall|i: int|
            0 <= i < steps.len() ==> !crosses(#[trigger] steps[i]),
{
    reveal(exchange::sending);
    reveal(exchange::fetching);
    reveal(exchange::own_plan);
    reveal(exchange::publishing);
    reveal(exchange::attended_plan);
    reveal(exchange::returning);
    reveal_with_fuel(exchange::for_peers, 2);
    reveal_with_fuel(exchange::for_ranks, 2);
    reveal_with_fuel(exchange::peers_plan, 2);
    assert(exchange::sending(shard, config.hidden) + exchange::fetching(shard, config.hidden) =~= waiting());
    let peers = exchange::peers_plan(block, config, shard, call.gated(block), shard.tokens@.len() as int);
    assert(peers == Ok::<Seq<ShardStep>, Seq<char>>(Seq::empty() + Seq::empty()));
    assert(Seq::<ShardStep>::empty() + Seq::<ShardStep>::empty() =~= Seq::empty());
    let attended = exchange::attended_plan(block, config, shard, call);
    if let Ok(steps) = attended {
        assert(Seq::<ShardStep>::empty() + steps =~= steps);
        let (first, rest) = (
            exchange::attending_steps(block, shard, call),
            exchange::returning(shard, config, call.tokens),
        );
        assert(none_crosses(first));
        assert(none_crosses(rest)) by {
            let ranks = shard.tokens@.len() as int;
            let unpacked = exchange::for_ranks(ranks, |peer: int| exchange::unpacked_from(shard, config.heads, peer));
            assert(unpacked =~= exchange::unpacked_from(shard, config.heads, 0));
        }
        neither_crosses(first, rest);
    }
    if let Ok(steps) = exchange::shared_plan(block, config, shard, call) {
        let gated = call.gated(block);
        let inputs = exchange::inputs_plan(block, config, shard.heads@[0], shard.tokens@[0], gated)->Ok_0;
        projections_do_not_cross(block, config, shard.heads@[0], shard.tokens@[0], gated);
        let head = exchange::publishing(shard, config.hidden, call.tokens) + exchange::reserving(
            shard,
            call.tokens,
            gated,
        );
        assert(none_crosses(head));
        neither_crosses(inputs, seq![ShardStep::Charge(exchange::Phase::Attend)]);
        neither_crosses(head, inputs + seq![ShardStep::Charge(exchange::Phase::Attend)]);
        neither_crosses(waiting(), attended->Ok_0);
        neither_crosses(
            head + (inputs + seq![ShardStep::Charge(exchange::Phase::Attend)]),
            waiting() + attended->Ok_0,
        );
    }
}

/// Whether an action of a shared-out block is the launch of a block that is not.
pub open spec fn is_launch(step: ShardStep, launch: BlockStep) -> bool {
    match step {
        ShardStep::PrepareInputs { attending, rows, heads, pairs } => launch == (BlockStep::PrepareInputs {
            attending,
            rows,
            heads,
            pairs,
        }),
        ShardStep::QkNormRope { rows, heads, pairs } => launch == (BlockStep::QkNormRope { rows, heads, pairs }),
        ShardStep::Attend { attending, prepared, rows, heads } => launch == (BlockStep::Attend {
            attending,
            prepared,
            rows,
            heads,
        }),
        _ => false,
    }
}

/// A rank alone attends with the very launches of the main block that is not shared out.
pub proof fn one_rank_attends_as_the_whole(
    block: Block,
    config: DitConfig,
    shard: Shard,
    shared: SharedCall,
    call: BlockCall,
)
    requires
        is_alone(shard, shared.tokens, config.heads),
        !call.sharded,
        call.modulated,
        call.tokens == shared.tokens,
        call.heads == config.heads,
        call.pairs == shared.pairs,
        call.sparse == shared.sparse,
        call.quantized == shared.quantized,
        shared.gated(block) ==> call.gate,
    ensures
        match block.attention_plan(call) {
            Err(words) => exchange::attended_plan(block, config, shard, shared) == Err::<Seq<ShardStep>, Seq<char>>(
                words,
            ),
            Ok(launches) => {
                let steps = exchange::attending_steps(block, shard, shared);
                &&& exchange::attended_plan(block, config, shard, shared) == Ok::<Seq<ShardStep>, Seq<char>>(
                    steps + exchange::returning(shard, config, shared.tokens),
                )
                &&& launches.len() == 2
                &&& is_launch(steps[1], launches[0])
                &&& is_launch(steps[2], launches[1])
            },
        },
{
    reveal(Block::attention_plan);
    reveal(exchange::attended_plan);
    assert(shard.heads@[0].size() == config.heads);
    let gated = block.gated(call);
    assert(gated == shared.gated(block));
    assert(call.attending(gated) == shared.attending(block));
}

/// The part of a rank alone is the whole velocity.
pub proof fn one_part_is_the_whole<T: Copy>(
    part: VelocityPart<T>,
    total: usize,
    segment: Run,
    width: int,
    projection: Projection,
    zero: T,
)
    requires
        part.rows == (Run { start: 0, end: total }),
        segment.start <= segment.end <= total,
        width >= 0,
        part.values(projection).len() == segment.size() * width,
    ensures
        forward::assembled(segment, width, seq![part], projection, zero) == Ok::<Seq<T>, Seq<char>>(
            part.values(projection),
        ),
{
    reveal_with_fuel(forward::gathered, 2);
    let values = part.values(projection);
    let blank = Seq::new((segment.size() * width) as nat, |i: int| zero);
    match shard::overlap(segment, part.rows) {
        Some(held) => {
            assert(held == segment);
            assert(0 * width == 0);
            assert(forward::placed(blank, values, 0) =~= values);
        },
        None => {
            assert(segment.size() == 0);
            assert(segment.size() * width == 0) by (nonlinear_arith)
                requires
                    segment.size() == 0,
            ;
            assert(blank =~= values);
        },
    }
}

} // verus!
