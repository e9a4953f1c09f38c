//! What the launches of a picture compute: the buffers of the vision tower as values, and the tower as a formula.
use crate::value::Value;
use crate::vision;
use crate::vision::{
    CudaVisionEncoder, FullLinear, Merger, Merging, VisionBlock, VisionBuffer, VisionLinear, VisionNorm, VisionStep,
    HEAD_DIM,
};
use vstd::prelude::*;

verus! {

/// The operations of the tower's kernels.
#[allow(inconsistent_fields)]
pub enum VisionOp {
    PatchEmbed { rows: int, outputs: int },
    /// The position embeddings of the patches.
    Positions { count: int },
    Norm { norm: VisionNorm, rows: int, width: int },
    Linear { linear: VisionLinear, rows: int, inputs: int, outputs: int },
    Gelu { count: int, tanh: bool },
    /// The rotated queries and keys and the values, split into heads.
    Query { rows: int, heads: int },
    Key { rows: int, heads: int },
    Values { rows: int, heads: int },
    /// The scores of the queries against the keys of the head at this byte.
    Scores { offset: int, rows: int },
    Softmax { rows: int },
    /// The values of the head at this byte, weighted by the scores.
    Weighted { offset: int, rows: int },
    MergeHeads { rows: int, heads: int },
}

/// What a buffer of a picture holds.
pub type Held = Value<VisionOp>;

/// What the buffers of a picture hold, and of the weighted values the part of each head, by its first byte.
pub struct Picture {
    pub held: Map<VisionBuffer, Held>,
    pub weighted: Map<int, Held>,
}

/// The first byte of a head of `rows` patches.
pub open spec fn head_at(rows: int, head: int) -> int {
    head * (rows * HEAD_DIM) * 4
}

impl Picture {
    pub open spec fn at(self, buffer: VisionBuffer) -> Held {
        self.held[buffer]
    }

    pub open spec fn with(self, buffer: VisionBuffer, value: Held) -> Picture {
        Picture { held: self.held.insert(buffer, value), ..self }
    }

    /// What the buffers hold behind a launch.
    pub open spec fn after(self, step: VisionStep) -> Picture {
        match step {
            VisionStep::PatchEmbed { rows, outputs } => self.with(
                VisionBuffer::States,
                Value::given(VisionOp::PatchEmbed { rows: rows as int, outputs: outputs as int }),
            ),
            VisionStep::AddPositions { count } => self.with(
                VisionBuffer::States,
                self.at(VisionBuffer::States).plus(Value::given(VisionOp::Positions { count: count as int })),
            ),
            VisionStep::Norm { norm, rows, width } => self.with(
                VisionBuffer::Normalized,
                Value::of(
                    VisionOp::Norm { norm, rows: rows as int, width: width as int },
                    self.at(VisionBuffer::States),
                ),
            ),
            VisionStep::Linear { linear, rows, inputs, outputs, accumulate } => {
                let product = Value::of(
                    VisionOp::Linear { linear, rows: rows as int, inputs: inputs as int, outputs: outputs as int },
                    self.at(linear.reads()),
                );
                self.with(
                    linear.writes(),
                    if accumulate {
                        self.at(linear.writes()).plus(product)
                    } else {
                        product
                    },
                )
            },
            VisionStep::Gelu { buffer, count, tanh } => self.with(
                buffer,
                Value::of(VisionOp::Gelu { count: count as int, tanh }, self.at(buffer)),
            ),
            VisionStep::SplitRotate { rows, heads } => {
                let qkv = self.at(VisionBuffer::Qkv);
                let (rows, heads) = (rows as int, heads as int);
                self.with(VisionBuffer::Query, Value::of(VisionOp::Query { rows, heads }, qkv)).with(
                    VisionBuffer::Key,
                    Value::of(VisionOp::Key { rows, heads }, qkv),
                ).with(VisionBuffer::Values, Value::of(VisionOp::Values { rows, heads }, qkv))
            },
            VisionStep::Scores { offset, rows } => self.with(
                VisionBuffer::Scores,
                Value::of_both(
                    VisionOp::Scores { offset: offset as int, rows: rows as int },
                    self.at(VisionBuffer::Query),
                    self.at(VisionBuffer::Key),
                ),
            ),
            VisionStep::Softmax { rows } => self.with(
                VisionBuffer::Scores,
                Value::of(VisionOp::Softmax { rows: rows as int }, self.at(VisionBuffer::Scores)),
            ),
            VisionStep::Weighted { offset, rows } => Picture {
                weighted: self.weighted.insert(
                    offset as int,
                    Value::of_both(
                        VisionOp::Weighted { offset: offset as int, rows: rows as int },
                        self.at(VisionBuffer::Scores),
                        self.at(VisionBuffer::Values),
                    ),
                ),
                ..self
            },
            VisionStep::MergeHeads { rows, heads } => self.with(
                VisionBuffer::Attention,
                Value::Made(
                    VisionOp::MergeHeads { rows: rows as int, heads: heads as int },
                    Seq::new(heads as nat, |head: int| self.weighted[head_at(rows as int, head)]),
                ),
            ),
        }
    }

    /// What the buffers hold behind launches.
    pub open spec fn behind(self, steps: Seq<VisionStep>) -> Picture
        decreases steps.len(),
    {
        if steps.len() == 0 {
            self
        } else {
            self.behind(steps.drop_last()).after(steps.last())
        }
    }
}

pub open spec fn normed(norm: VisionNorm, rows: usize, width: usize, value: Held) -> Held {
    Value::of(VisionOp::Norm { norm, rows: rows as int, width: width as int }, value)
}

pub open spec fn projected(linear: VisionLinear, layer: FullLinear, rows: usize, value: Held) -> Held {
    Value::of(
        VisionOp::Linear { linear, rows: rows as int, inputs: layer.inputs as int, outputs: layer.outputs as int },
        value,
    )
}

/// The values of a head, weighted by the softmax of the scores of its own queries against its own keys.
pub open spec fn head_of(qkv: Held, rows: usize, heads: usize, head: int) -> Held {
    let (count, all) = (rows as int, heads as int);
    let offset = head_at(count, head);
    let scores = Value::of_both(
        VisionOp::Scores { offset, rows: count },
        Value::of(VisionOp::Query { rows: count, heads: all }, qkv),
        Value::of(VisionOp::Key { rows: count, heads: all }, qkv),
    );
    Value::of_both(
        VisionOp::Weighted { offset, rows: count },
        Value::of(VisionOp::Softmax { rows: count }, scores),
        Value::of(VisionOp::Values { rows: count, heads: all }, qkv),
    )
}

/// Every head once, in their order.
pub open spec fn attended(qkv: Held, rows: usize, heads: usize) -> Held {
    Value::Made(
        VisionOp::MergeHeads { rows: rows as int, heads: heads as int },
        Seq::new(heads as nat, |head: int| head_of(qkv, rows, heads, head)),
    )
}

/// A block: the attention of the normalized states on top of them, and the MLP of those normalized on top of both.
pub open spec fn block_of(block: VisionBlock, index: usize, ffn: usize, rows: usize, heads: usize, states: Held) -> Held {
    let qkv = projected(
        VisionLinear::Qkv(index),
        block.qkv,
        rows,
        normed(VisionNorm::First(index), rows, block.norm1, states),
    );
    let middle = states.plus(
        projected(VisionLinear::Projection(index), block.projection, rows, attended(qkv, rows, heads)),
    );
    let expanded = projected(
        VisionLinear::Fc1(index),
        block.fc1,
        rows,
        normed(VisionNorm::Second(index), rows, block.norm2, middle),
    );
    middle.plus(
        projected(
            VisionLinear::Fc2(index),
            block.fc2,
            rows,
            Value::of(VisionOp::Gelu { count: rows * ffn, tanh: true }, expanded),
        ),
    )
}

/// The states behind the first `count` blocks: the embedded patches with their positions, and what each block adds.
pub open spec fn tower(encoder: CudaVisionEncoder, rows: usize, count: int) -> Held
    decreases count,
{
    if count <= 0 {
        Value::given(VisionOp::PatchEmbed { rows: rows as int, outputs: encoder.hidden as int }).plus(
            Value::given(VisionOp::Positions { count: rows * encoder.hidden }),
        )
    } else {
        block_of(
            encoder.blocks@[count - 1],
            (count - 1) as usize,
            encoder.blocks@[0].fc1.outputs,
            rows,
            encoder.heads,
            tower(encoder, rows, count - 1),
        )
    }
}

/// fc2(GELU(fc1(joined))) over the joined patches.
pub open spec fn merged(merger: Merger, first: VisionLinear, second: VisionLinear, rows: usize, joined: Held) -> Held {
    projected(
        second,
        merger.fc2,
        rows,
        Value::of(
            VisionOp::Gelu { count: rows * merger.fc1.outputs, tanh: false },
            projected(first, merger.fc1, rows, joined),
        ),
    )
}

/// The embedding of a picture: the main merger on the states behind all blocks.
pub open spec fn embedding(encoder: CudaVisionEncoder, rows: usize, merged_rows: usize) -> Held {
    merged(
        encoder.merger,
        VisionLinear::MainFc1,
        VisionLinear::MainFc2,
        merged_rows,
        normed(VisionNorm::Main, rows, encoder.merger.norm, tower(encoder, rows, encoder.blocks@.len() as int)),
    )
}

/// The DeepStack feature number `place`: its merger on the states behind every eighth block.
pub open spec fn feature(encoder: CudaVisionEncoder, rows: usize, merged_rows: usize, place: usize) -> Held {
    let merger = encoder.deepstack@[place as int];
    merged(
        merger,
        VisionLinear::DeepFc1(place),
        VisionLinear::DeepFc2(place),
        merged_rows,
        normed(VisionNorm::Deep(place), merged_rows, merger.norm, tower(encoder, rows, 8 * (place + 1) + 1)),
    )
}

proof fn behind_both(picture: Picture, one: Seq<VisionStep>, other: Seq<VisionStep>)
    ensures
        picture.behind(one + other) == picture.behind(one).behind(other),
    decreases other.len(),
{
    if other.len() == 0 {
        assert(one + other =~= one);
    } else {
        behind_both(picture, one, other.drop_last());
        assert((one + other).drop_last() =~= one + other.drop_last());
    }
}

proof fn behind_one(picture: Picture, one: VisionStep)
    ensures
        picture.behind(seq![one]) == picture.after(one),
{
    reveal_with_fuel(Picture::behind, 2);
    assert(seq![one].drop_last() =~= Seq::empty());
}

proof fn behind_three(picture: Picture, one: VisionStep, two: VisionStep, three: VisionStep)
    ensures
        picture.behind(seq![one, two, three]) == picture.after(one).after(two).after(three),
{
    reveal_with_fuel(Picture::behind, 4);
    assert(seq![one, two, three].drop_last() =~= seq![one, two]);
    assert(seq![one, two].drop_last() =~= seq![one]);
    assert(seq![one].drop_last() =~= Seq::empty());
}

/// What the heads leave: the part of each of the first `count` heads, and every other buffer as it was.
proof fn heads_flow(picture: Picture, qkv: Held, rows: usize, heads: usize, count: int)
    requires
        0 <= count <= heads,
        heads * (rows * HEAD_DIM) * 4 <= usize::MAX,
        picture.at(VisionBuffer::Query) == Value::of(VisionOp::Query { rows: rows as int, heads: heads as int }, qkv),
        picture.at(VisionBuffer::Key) == Value::of(VisionOp::Key { rows: rows as int, heads: heads as int }, qkv),
        picture.at(VisionBuffer::Values) == Value::of(VisionOp::Values { rows: rows as int, heads: heads as int }, qkv),
    ensures
        ({
            let then = picture.behind(vision::heads_steps(rows, count));
            &&& forall|head: int|
                0 <= head < count ==> then.weighted[#[trigger] head_at(rows as int, head)] == head_of(
                    qkv,
                    rows,
                    heads,
                    head,
                )
            &&& forall|buffer: VisionBuffer| buffer != VisionBuffer::Scores ==> #[trigger] then.at(buffer)
                == picture.at(buffer)
        }),
    decreases count,
{
    if count > 0 {
        heads_flow(picture, qkv, rows, heads, count - 1);
        let before = picture.behind(vision::heads_steps(rows, count - 1));
        crate::arithmetic::products_grow(count - 1, rows * HEAD_DIM, heads as int, rows * HEAD_DIM);
        let place = head_at(rows as int, count - 1);
        let offset = ((count - 1) * (rows * HEAD_DIM) * 4) as usize;
        assert(offset == place);
        let (one, two, three) = (
            VisionStep::Scores { offset, rows },
            VisionStep::Softmax { rows },
            VisionStep::Weighted { offset, rows },
        );
        behind_both(picture, vision::heads_steps(rows, count - 1), seq![one, two, three]);
        behind_three(before, one, two, three);
        let then = before.after(one).after(two).after(three);
        assert(before.at(VisionBuffer::Query) == picture.at(VisionBuffer::Query));
        assert(before.at(VisionBuffer::Key) == picture.at(VisionBuffer::Key));
        assert(before.at(VisionBuffer::Values) == picture.at(VisionBuffer::Values));
        assert(then.weighted[place] == head_of(qkv, rows, heads, count - 1));
        assert forall|head: int| 0 <= head < count implies then.weighted[#[trigger] head_at(rows as int, head)]
            == head_of(qkv, rows, heads, head) by {
            if head < count - 1 {
                assert(before.weighted[head_at(rows as int, head)] == head_of(qkv, rows, heads, head));
            }
        }
        assert forall|buffer: VisionBuffer| buffer != VisionBuffer::Scores implies #[trigger] then.at(buffer)
            == picture.at(buffer) by {
            assert(before.at(buffer) == picture.at(buffer));
        }
    }
}

/// What the attention leaves.
proof fn attention_flows(picture: Picture, rows: usize, heads: usize)
    requires
        heads * (rows * HEAD_DIM) * 4 <= usize::MAX,
    ensures
        ({
            let then = picture.behind(vision::attend_steps(rows, heads));
            &&& then.at(VisionBuffer::Attention) == attended(picture.at(VisionBuffer::Qkv), rows, heads)
            &&& then.at(VisionBuffer::States) == picture.at(VisionBuffer::States)
            &&& forall|merging: Merging| #[trigger]
                then.at(VisionBuffer::Merged(merging)) == picture.at(VisionBuffer::Merged(merging))
        }),
{
    let qkv = picture.at(VisionBuffer::Qkv);
    let split = VisionStep::SplitRotate { rows, heads };
    let join = VisionStep::MergeHeads { rows, heads };
    let steps = vision::heads_steps(rows, heads as int);
    behind_both(picture, seq![split] + steps, seq![join]);
    behind_both(picture, seq![split], steps);
    behind_one(picture, split);
    let begun = picture.after(split);
    heads_flow(begun, qkv, rows, heads, heads as int);
    let before = begun.behind(steps);
    behind_one(before, join);
    let then = before.after(join);
    assert(Seq::new(heads as nat, |head: int| before.weighted[head_at(rows as int, head)]) =~= Seq::new(
        heads as nat,
        |head: int| head_of(qkv, rows, heads, head),
    )) by {
        assert forall|head: int| 0 <= head < heads implies before.weighted[head_at(rows as int, head)] == head_of(
            qkv,
            rows,
            heads,
            head,
        ) by {}
    }
    assert(before.at(VisionBuffer::States) == picture.at(VisionBuffer::States));
    assert forall|merging: Merging| #[trigger]
        then.at(VisionBuffer::Merged(merging)) == picture.at(VisionBuffer::Merged(merging)) by {
        assert(before.at(VisionBuffer::Merged(merging)) == begun.at(VisionBuffer::Merged(merging)));
    }
}

/// What a block leaves.
proof fn a_block_flows(picture: Picture, block: VisionBlock, index: usize, ffn: usize, rows: usize, heads: usize)
    requires
        heads * (rows * HEAD_DIM) * 4 <= usize::MAX,
        rows * ffn <= usize::MAX,
    ensures
        ({
            let then = picture.behind(vision::block_steps(block, index, ffn, rows, heads));
            &&& then.at(VisionBuffer::States) == block_of(
                block,
                index,
                ffn,
                rows,
                heads,
                picture.at(VisionBuffer::States),
            )
            &&& forall|merging: Merging| #[trigger]
                then.at(VisionBuffer::Merged(merging)) == picture.at(VisionBuffer::Merged(merging))
        }),
{
    let steps = vision::block_steps(block, index, ffn, rows, heads);
    let attention = vision::attend_steps(rows, heads);
    let count = attention.len() as int;
    let (one, two) = (steps[0], steps[1]);
    let tail = steps.skip(2 + count);
    assert(steps =~= seq![one] + seq![two] + attention + seq![tail[0], tail[1], tail[2]] + seq![tail[3]] + seq![tail[4]]);
    let first = picture.after(one);
    let second = first.after(two);
    let third = second.behind(attention);
    behind_one(picture, one);
    behind_both(picture, seq![one], seq![two]);
    behind_one(first, two);
    behind_both(picture, seq![one] + seq![two], attention);
    attention_flows(second, rows, heads);
    behind_both(picture, seq![one] + seq![two] + attention, seq![tail[0], tail[1], tail[2]]);
    behind_three(third, tail[0], tail[1], tail[2]);
    let fourth = third.after(tail[0]).after(tail[1]).after(tail[2]);
    behind_both(picture, seq![one] + seq![two] + attention + seq![tail[0], tail[1], tail[2]], seq![tail[3]]);
    behind_one(fourth, tail[3]);
    behind_both(
        picture,
        seq![one] + seq![two] + attention + seq![tail[0], tail[1], tail[2]] + seq![tail[3]],
        seq![tail[4]],
    );
    behind_one(fourth.after(tail[3]), tail[4]);
    let then = fourth.after(tail[3]).after(tail[4]);
    assert forall|merging: Merging| #[trigger]
        then.at(VisionBuffer::Merged(merging)) == picture.at(VisionBuffer::Merged(merging)) by {
        assert(third.at(VisionBuffer::Merged(merging)) == second.at(VisionBuffer::Merged(merging)));
    }
}

/// What a merger leaves.
proof fn a_merger_flows(picture: Picture, merger: Merger, first: VisionLinear, second: VisionLinear, rows: usize)
    requires
        rows * merger.fc1.outputs <= usize::MAX,
        first.reads() == VisionBuffer::Normalized,
        first.writes() is Joined,
        second.reads() == first.writes(),
        second.writes() is Merged,
    ensures
        ({
            let then = picture.behind(vision::merge_steps(merger, first, second, rows));
            &&& then.at(second.writes()) == merged(merger, first, second, rows, picture.at(VisionBuffer::Normalized))
            &&& then.at(VisionBuffer::States) == picture.at(VisionBuffer::States)
            &&& forall|merging: Merging|
                VisionBuffer::Merged(merging) != second.writes() ==> #[trigger] then.at(VisionBuffer::Merged(merging))
                    == picture.at(VisionBuffer::Merged(merging))
        }),
{
    let steps = vision::merge_steps(merger, first, second, rows);
    behind_three(picture, steps[0], steps[1], steps[2]);
    assert(steps =~= seq![steps[0], steps[1], steps[2]]);
}

/// What the first `count` blocks and their DeepStack mergers leave.
proof fn blocks_flow(picture: Picture, encoder: CudaVisionEncoder, rows: usize, merged_rows: usize, count: int)
    requires
        encoder.counts(rows, merged_rows),
        0 <= count <= encoder.blocks@.len(),
        picture.at(VisionBuffer::States) == tower(encoder, rows, 0),
    ensures
        ({
            let then = picture.behind(vision::blocks_steps(encoder, rows, merged_rows, count));
            &&& then.at(VisionBuffer::States) == tower(encoder, rows, count)
            &&& forall|place: usize|
                place < 3 && 8 * (place + 1) < count ==> #[trigger] then.at(VisionBuffer::Merged(Merging::Deep(place)))
                    == feature(encoder, rows, merged_rows, place)
        }),
    decreases count,
{
    if count > 0 {
        let earlier = vision::blocks_steps(encoder, rows, merged_rows, count - 1);
        let block = encoder.blocks@[count - 1];
        let index = (count - 1) as usize;
        let ffn = encoder.blocks@[0].fc1.outputs;
        let steps = vision::block_steps(block, index, ffn, rows, encoder.heads);
        let deep = vision::deep_steps(encoder.deepstack@, count - 1, merged_rows);
        blocks_flow(picture, encoder, rows, merged_rows, count - 1);
        let before = picture.behind(earlier);
        behind_both(picture, earlier, steps);
        behind_both(picture, earlier + steps, deep);
        a_block_flows(before, block, index, ffn, rows, encoder.heads);
        let middle = before.behind(steps);
        let then = middle.behind(deep);
        match vision::deepstack_of(count - 1) {
            None => {
                assert(deep =~= Seq::empty());
            },
            Some(place) => {
                let merger = encoder.deepstack@[place as int];
                assert(vision::merger_counts(merger, merged_rows));
                let norm = VisionStep::Norm { norm: VisionNorm::Deep(place), rows: merged_rows, width: merger.norm };
                let list = vision::merge_steps(
                    merger,
                    VisionLinear::DeepFc1(place),
                    VisionLinear::DeepFc2(place),
                    merged_rows,
                );
                behind_both(middle, seq![norm], list);
                behind_one(middle, norm);
                let normalized = middle.after(norm);
                a_merger_flows(
                    normalized,
                    merger,
                    VisionLinear::DeepFc1(place),
                    VisionLinear::DeepFc2(place),
                    merged_rows,
                );
                assert(count == 8 * (place + 1) + 1);
                assert(then.at(VisionBuffer::Merged(Merging::Deep(place))) == feature(encoder, rows, merged_rows, place));
                assert forall|other: usize| other != place implies #[trigger] then.at(
                    VisionBuffer::Merged(Merging::Deep(other)),
                ) == middle.at(VisionBuffer::Merged(Merging::Deep(other))) by {}
            },
        }
        assert forall|place: usize| place < 3 && 8 * (place + 1) < count implies #[trigger] then.at(
            VisionBuffer::Merged(Merging::Deep(place)),
        ) == feature(encoder, rows, merged_rows, place) by {
            assert(middle.at(VisionBuffer::Merged(Merging::Deep(place))) == before.at(
                VisionBuffer::Merged(Merging::Deep(place)),
            ));
        }
    }
}

/// Whatever the buffers held before, the launches of a picture leave in them its embedding and its DeepStack features:
/// every block adds its attention and its MLP to the states once and nothing else writes them, every head attends
/// once with its own queries, keys and values, and the mergers read the states behind the blocks they belong to.
pub proof fn a_picture_is_embedded(picture: Picture, encoder: CudaVisionEncoder, rows: usize, merged_rows: usize)
    requires
        encoder.counts(rows, merged_rows),
    ensures
        ({
            let then = picture.behind(vision::encode_steps(encoder, rows, merged_rows));
            &&& then.at(VisionBuffer::States) == tower(encoder, rows, encoder.blocks@.len() as int)
            &&& then.at(VisionBuffer::Merged(Merging::Main)) == embedding(encoder, rows, merged_rows)
            &&& forall|place: usize|
                place < 3 && 8 * (place + 1) < encoder.blocks@.len() ==> #[trigger] then.at(
                    VisionBuffer::Merged(Merging::Deep(place)),
                ) == feature(encoder, rows, merged_rows, place)
        }),
{
    let steps = vision::encode_steps(encoder, rows, merged_rows);
    let embed = VisionStep::PatchEmbed { rows, outputs: encoder.hidden };
    let positions = VisionStep::AddPositions { count: (rows * encoder.hidden) as usize };
    crate::arithmetic::products_grow(rows as int, encoder.hidden as int, rows as int, 3 * encoder.hidden);
    let blocks = vision::blocks_steps(encoder, rows, merged_rows, encoder.blocks@.len() as int);
    let norm = VisionStep::Norm { norm: VisionNorm::Main, rows, width: encoder.merger.norm };
    let list = vision::merge_steps(encoder.merger, VisionLinear::MainFc1, VisionLinear::MainFc2, merged_rows);
    assert(steps =~= seq![embed] + seq![positions] + blocks + seq![norm] + list);
    behind_both(picture, seq![embed], seq![positions]);
    behind_one(picture, embed);
    behind_one(picture.after(embed), positions);
    let begun = picture.after(embed).after(positions);
    behind_both(picture, seq![embed] + seq![positions], blocks);
    blocks_flow(begun, encoder, rows, merged_rows, encoder.blocks@.len() as int);
    let before = begun.behind(blocks);
    behind_both(picture, seq![embed] + seq![positions] + blocks, seq![norm]);
    behind_one(before, norm);
    let normalized = before.after(norm);
    behind_both(picture, seq![embed] + seq![positions] + blocks + seq![norm], list);
    a_merger_flows(normalized, encoder.merger, VisionLinear::MainFc1, VisionLinear::MainFc2, merged_rows);
    let then = normalized.behind(list);
    assert forall|place: usize| place < 3 && 8 * (place + 1) < encoder.blocks@.len() implies #[trigger] then.at(
        VisionBuffer::Merged(Merging::Deep(place)),
    ) == feature(encoder, rows, merged_rows, place) by {
        assert(before.at(VisionBuffer::Merged(Merging::Deep(place))) == feature(encoder, rows, merged_rows, place));
    }
}

} // verus!
