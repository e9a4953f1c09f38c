//! What the launches of one call of the DiT compute, row by row: the residual stream as values, and the call as a
//! formula of its text and its patches.
use crate::call;
use crate::call::CallStep;
use crate::dit::CudaDit;
use crate::forward;
use crate::forward::{
    Cached, Embed, Forward, LoopStep, PackedLayout, Projection, RunCall, Segment, SegmentKind, TextStates,
};
use crate::shard;
use crate::shard::Run;
use crate::value::Value;
use crate::workspace::DitConfig;
use vstd::prelude::*;

verus! {

/// The operations of a call on a row.
#[allow(inconsistent_fields)]
pub enum CallOp {
    /// A row of the projected text features.
    Text { row: int },
    Widened,
    /// A row behind a block of the text refiner on the text rows.
    Refined { layer: usize, row: int },
    TextNorm,
    /// A projected patch of a segment.
    Patch { kind: SegmentKind, projection: Projection, row: int },
    /// A row behind the attention of a block that was modulated for a layer.
    Attended { layer: usize, modulated: int, row: int },
    /// The MLP of a row of such a block.
    Mlp { layer: usize, modulated: int, row: int },
    /// A row gated as its layer's table says.
    Gated { layer: int },
    LastNorm,
    Velocity { projection: Projection, width: usize },
}

/// What a row holds.
pub type Held = Value<CallOp>;

/// What the rows of a call hold.
pub struct Stream {
    pub residual: Seq<Held>,
    pub normalized: Seq<Held>,
    pub delta: Seq<Held>,
    /// The rows the last layer projects.
    pub projected: Seq<Held>,
    /// The refined text rows that are kept for the calls to come.
    pub kept: Seq<Held>,
    /// The layers that the modulation tables are filled for.
    pub tables: Map<usize, int>,
    /// Whether the table of the last layer is filled.
    pub last: bool,
    pub taken: Seq<(usize, Seq<Held>)>,
    pub velocities: Map<Projection, Seq<Held>>,
}

/// The rows of a call with `count` of them, from `first` on, as `value` says.
pub open spec fn written(rows: Seq<Held>, first: int, count: int, value: spec_fn(int) -> Held) -> Seq<Held> {
    Seq::new(
        rows.len(),
        |row: int|
            if first <= row < first + count {
                value(row)
            } else {
                rows[row]
            },
    )
}

/// The rows with what a block left, gated by a layer's table.
pub open spec fn with_left(rows: Seq<Held>, left: Seq<Held>, layer: int) -> Seq<Held> {
    Seq::new(rows.len(), |row: int| rows[row].plus(Value::of(CallOp::Gated { layer }, left[row])))
}

impl Stream {
    /// What the rows hold behind an action of the block loop.
    pub open spec fn after_loop(self, step: LoopStep) -> Stream {
        match step {
            LoopStep::Modulate { layer, table } => Stream {
                tables: self.tables.insert(table, layer as int),
                ..self
            },
            LoopStep::Block { layer, table, pending } => {
                let rows = match pending {
                    Some(other) => with_left(self.residual, self.delta, self.tables[other]),
                    None => self.residual,
                };
                let modulated = self.tables[table];
                Stream {
                    residual: Seq::new(
                        rows.len(),
                        |row: int| Value::Made(CallOp::Attended { layer, modulated, row }, rows),
                    ),
                    delta: Seq::new(rows.len(), |row: int| Value::Made(CallOp::Mlp { layer, modulated, row }, rows)),
                    ..self
                }
            },
            LoopStep::Routed => self,
            LoopStep::AddPending { table } => Stream {
                residual: with_left(self.residual, self.delta, self.tables[table]),
                ..self
            },
            LoopStep::Capture { layer } => Stream { taken: self.taken.push((layer, self.residual)), ..self },
        }
    }

    /// What the rows hold behind a launch, of rows of `hidden` values and `tokens` text rows.
    pub open spec fn after(self, hidden: int, tokens: int, step: CallStep) -> Stream {
        match step {
            CallStep::CopyText { bytes } => Stream {
                residual: written(self.residual, 0, bytes as int / (hidden * 4), |row: int| self.kept[row]),
                ..self
            },
            CallStep::ProjectText { rows } => Stream {
                normalized: written(
                    self.normalized,
                    0,
                    rows as int,
                    |row: int| Value::given(CallOp::Text { row }),
                ),
                ..self
            },
            CallStep::WidenText { count } => Stream {
                residual: written(
                    self.residual,
                    0,
                    count as int / hidden,
                    |row: int| Value::of(CallOp::Widened, self.normalized[row]),
                ),
                ..self
            },
            CallStep::RefineText { layer } => Stream {
                residual: written(
                    self.residual,
                    0,
                    tokens,
                    |row: int| Value::Made(CallOp::Refined { layer, row }, self.residual.take(tokens)),
                ),
                ..self
            },
            CallStep::NormalizeText { rows } => Stream {
                residual: written(
                    self.residual,
                    0,
                    rows as int,
                    |row: int| Value::of(CallOp::TextNorm, self.residual[row]),
                ),
                ..self
            },
            CallStep::KeepText { bytes } => Stream { kept: self.residual.take(bytes as int / (hidden * 4)), ..self },
            CallStep::Embed { embed, offset } => {
                let first = offset as int / (hidden * 4);
                Stream {
                    residual: written(
                        self.residual,
                        first,
                        embed.taken.size(),
                        |row: int|
                            Value::given(
                                CallOp::Patch {
                                    kind: embed.kind,
                                    projection: embed.projection,
                                    row: embed.taken.start + (row - first),
                                },
                            ),
                    ),
                    ..self
                }
            },
            CallStep::Loop { step } => self.after_loop(step),
            CallStep::ModulateLast => Stream { last: true, ..self },
            CallStep::NormalizeLast { rows } => Stream {
                projected: written(
                    self.projected,
                    0,
                    rows as int,
                    |row: int|
                        if self.last {
                            Value::of(CallOp::LastNorm, self.residual[row])
                        } else {
                            Value::Unset
                        },
                ),
                ..self
            },
            CallStep::Velocity { projection, offset, rows, width } => Stream {
                velocities: self.velocities.insert(
                    projection,
                    Seq::new(
                        rows as nat,
                        |row: int|
                            Value::of(
                                CallOp::Velocity { projection, width },
                                self.projected[offset as int / (hidden * 4) + row],
                            ),
                    ),
                ),
                ..self
            },
        }
    }

    /// What the rows hold behind launches.
    pub open spec fn behind(self, hidden: int, tokens: int, steps: Seq<CallStep>) -> Stream
        decreases steps.len(),
    {
        if steps.len() == 0 {
            self
        } else {
            self.behind(hidden, tokens, steps.drop_last()).after(hidden, tokens, steps.last())
        }
    }

    /// Whether the buffers have the rows of a call.
    pub open spec fn has_rows(self, count: int) -> bool {
        &&& self.residual.len() == count
        &&& self.normalized.len() == count
        &&& self.delta.len() == count
        &&& self.projected.len() == count
    }
}

/// The text rows behind the first `count` blocks of the refiner.
pub open spec fn refined(tokens: nat, count: int) -> Seq<Held>
    decreases count,
{
    if count <= 0 {
        Seq::new(tokens, |row: int| Value::of(CallOp::Widened, Value::given(CallOp::Text { row })))
    } else {
        let before = refined(tokens, count - 1);
        Seq::new(
            tokens,
            |row: int| Value::Made(CallOp::Refined { layer: (count - 1) as usize, row }, before),
        )
    }
}

/// The refined text rows.
pub open spec fn text_rows(tokens: nat, layers: int) -> Seq<Held> {
    Seq::new(tokens, |row: int| Value::of(CallOp::TextNorm, refined(tokens, layers)[row]))
}

/// What a block makes of the rows, but for its MLP.
pub open spec fn attended(rows: Seq<Held>, layer: int) -> Seq<Held> {
    Seq::new(
        rows.len(),
        |row: int| Value::Made(CallOp::Attended { layer: layer as usize, modulated: layer, row }, rows),
    )
}

/// The MLP of the rows of a block.
pub open spec fn left(rows: Seq<Held>, layer: int) -> Seq<Held> {
    Seq::new(
        rows.len(),
        |row: int| Value::Made(CallOp::Mlp { layer: layer as usize, modulated: layer, row }, rows),
    )
}

/// The rows behind the first `count` blocks, each modulated by its own table, its MLP gated by that table on top.
pub open spec fn stream(rows: Seq<Held>, count: int) -> Seq<Held>
    decreases count,
{
    if count <= 0 {
        rows
    } else {
        let before = stream(rows, count - 1);
        with_left(attended(before, count - 1), left(before, count - 1), count - 1)
    }
}

/// The rows that are taken behind the first `count` blocks.
pub open spec fn taken_of(rows: Seq<Held>, capture: Seq<usize>, count: int) -> Seq<(usize, Seq<Held>)>
    decreases count,
{
    if count <= 0 {
        Seq::empty()
    } else if capture.contains((count - 1) as usize) {
        taken_of(rows, capture, count - 1).push(((count - 1) as usize, stream(rows, count)))
    } else {
        taken_of(rows, capture, count - 1)
    }
}

/// The projection of the patches of a segment.
pub open spec fn projection_of(kind: SegmentKind) -> Projection {
    match kind {
        SegmentKind::Audio | SegmentKind::KeyframeAudio(_) | SegmentKind::ReferenceAudio(_) => Projection::Audio,
        _ => Projection::Video,
    }
}

/// What a token of a segment that is not text enters the stream as.
pub open spec fn patch_of(segment: Segment, place: int) -> Held {
    Value::given(
        CallOp::Patch { kind: segment.kind, projection: projection_of(segment.kind), row: place - segment.start },
    )
}

proof fn behind_both(s: Stream, hidden: int, tokens: int, one: Seq<CallStep>, other: Seq<CallStep>)
    ensures
        s.behind(hidden, tokens, one + other) == s.behind(hidden, tokens, one).behind(hidden, tokens, other),
    decreases other.len(),
{
    if other.len() == 0 {
        assert(one + other =~= one);
    } else {
        behind_both(s, hidden, tokens, one, other.drop_last());
        assert((one + other).drop_last() =~= one + other.drop_last());
    }
}

proof fn behind_one(s: Stream, hidden: int, tokens: int, one: CallStep)
    ensures
        s.behind(hidden, tokens, seq![one]) == s.after(hidden, tokens, one),
{
    reveal_with_fuel(Stream::behind, 2);
    assert(seq![one].drop_last() =~= Seq::empty());
}

proof fn behind_two(s: Stream, hidden: int, tokens: int, one: CallStep, two: CallStep)
    ensures
        s.behind(hidden, tokens, seq![one, two]) == s.after(hidden, tokens, one).after(hidden, tokens, two),
{
    behind_one(s, hidden, tokens, one);
    assert(seq![one, two].drop_last() =~= seq![one]);
}

/// Bytes of whole rows are those of so many rows.
proof fn bytes_are_rows(rows: int, hidden: int)
    requires
        hidden > 0,
    ensures
        rows * hidden * 4 / (hidden * 4) == rows,
        rows * hidden / hidden == rows,
{
    assert(rows * hidden * 4 == rows * (hidden * 4)) by (nonlinear_arith);
    vstd::arithmetic::div_mod::lemma_div_multiples_vanish(rows, hidden * 4);
    vstd::arithmetic::div_mod::lemma_div_multiples_vanish(rows, hidden);
}

spec fn refining(count: int) -> Seq<CallStep> {
    Seq::new(count as nat, |layer: int| CallStep::RefineText { layer: layer as usize })
}

proof fn the_refiner_flows(s: Stream, hidden: int, tokens: int, count: int)
    requires
        0 <= tokens <= s.residual.len(),
        0 <= count,
        s.residual.take(tokens) == refined(tokens as nat, 0),
    ensures
        ({
            let then = s.behind(hidden, tokens, refining(count));
            &&& then.residual.take(tokens) == refined(tokens as nat, count)
            &&& then == (Stream { residual: then.residual, ..s })
            &&& then.residual.len() == s.residual.len()
            &&& forall|row: int| tokens <= row < s.residual.len() ==> #[trigger] then.residual[row] == s.residual[row]
        }),
    decreases count,
{
    if count == 0 {
        assert(refining(0) =~= Seq::empty());
    } else {
        the_refiner_flows(s, hidden, tokens, count - 1);
        let step = CallStep::RefineText { layer: (count - 1) as usize };
        assert(refining(count) =~= refining(count - 1) + seq![step]);
        behind_both(s, hidden, tokens, refining(count - 1), seq![step]);
        let before = s.behind(hidden, tokens, refining(count - 1));
        behind_one(before, hidden, tokens, step);
        let then = before.after(hidden, tokens, step);
        assert(then.residual.take(tokens) =~= refined(tokens as nat, count));
    }
}

/// What the text launches leave.
proof fn the_text_flows(s: Stream, text: TextStates, config: DitConfig, tokens: usize)
    requires
        config.hidden > 0,
        tokens * config.hidden * 4 <= usize::MAX,
        text != TextStates::Elsewhere ==> tokens <= s.residual.len() && tokens <= s.normalized.len(),
        text == TextStates::Copied ==> s.kept == text_rows(tokens as nat, config.refiner_layers as int),
    ensures
        ({
            let then = s.behind(
                config.hidden as int,
                tokens as int,
                call::text_steps(text, config, tokens),
            );
            &&& text != TextStates::Elsewhere ==> {
                &&& then.residual.take(tokens as int) == text_rows(tokens as nat, config.refiner_layers as int)
                &&& then.kept == text_rows(tokens as nat, config.refiner_layers as int)
            }
            &&& text == TextStates::Elsewhere ==> then == s
            &&& then.residual.len() == s.residual.len()
            &&& then.normalized.len() == s.normalized.len()
            &&& then.delta == s.delta
            &&& then.projected == s.projected
            &&& then.taken == s.taken
        }),
{
    let hidden = config.hidden as int;
    let count = tokens as int;
    let layers = config.refiner_layers as int;
    let bytes = (tokens * config.hidden * 4) as usize;
    let list = call::text_steps(text, config, tokens);
    bytes_are_rows(count, hidden);
    assert(0 <= tokens * config.hidden <= usize::MAX) by (nonlinear_arith)
        requires
            tokens * config.hidden * 4 <= usize::MAX,
    ;
    match text {
        TextStates::Elsewhere => {},
        TextStates::Copied => {
            behind_one(s, hidden, count, CallStep::CopyText { bytes });
            let then = s.after(hidden, count, CallStep::CopyText { bytes });
            assert(then.residual.take(count) =~= text_rows(tokens as nat, layers));
        },
        TextStates::Refined => {
            let project = CallStep::ProjectText { rows: tokens };
            let widen = CallStep::WidenText { count: (tokens * config.hidden) as usize };
            let norm = CallStep::NormalizeText { rows: tokens };
            let keep = CallStep::KeepText { bytes };
            assert(list =~= seq![project, widen] + refining(layers) + seq![norm, keep]);
            behind_both(s, hidden, count, seq![project, widen] + refining(layers), seq![norm, keep]);
            behind_both(s, hidden, count, seq![project, widen], refining(layers));
            behind_two(s, hidden, count, project, widen);
            let one = s.after(hidden, count, project).after(hidden, count, widen);
            assert(one.residual.take(count) =~= refined(tokens as nat, 0));
            the_refiner_flows(one, hidden, count, layers);
            let two = one.behind(hidden, count, refining(layers));
            behind_two(two, hidden, count, norm, keep);
            let three = two.after(hidden, count, norm);
            assert(three.residual.take(count) =~= text_rows(tokens as nat, layers)) by {
                assert forall|row: int| 0 <= row < count implies three.residual[row] == text_rows(
                    tokens as nat,
                    layers,
                )[row] by {
                    assert(two.residual.take(count)[row] == two.residual[row]);
                }
            }
        },
    }
}

/// Whether an embed writes a row.
pub open spec fn covers(embed: Embed, row: int) -> bool {
    embed.row <= row < embed.row + embed.taken.size()
}

spec fn embedding(config: DitConfig, list: Seq<Embed>) -> Seq<CallStep> {
    list.map_values(|embed: Embed| call::embed_step(config, embed))
}

/// What embeds leave in a row, those that write it being at one about its value.
proof fn embeds_flow(s: Stream, config: DitConfig, tokens: int, list: Seq<Embed>, row: int, value: Held)
    requires
        config.hidden > 0,
        0 <= row < s.residual.len(),
        s.residual.len() * config.hidden * 4 <= usize::MAX,
        forall|i: int| 0 <= i < list.len() ==> (#[trigger] list[i]).row <= s.residual.len(),
        forall|i: int|
            0 <= i < list.len() && covers(#[trigger] list[i], row) ==> Value::given(
                CallOp::Patch {
                    kind: list[i].kind,
                    projection: list[i].projection,
                    row: list[i].taken.start + (row - list[i].row),
                },
            ) == value,
    ensures
        ({
            let then = s.behind(config.hidden as int, tokens, embedding(config, list));
            &&& then.residual[row] == (if forward::embedded(list, row) > 0 {
                value
            } else {
                s.residual[row]
            })
            &&& then == (Stream { residual: then.residual, ..s })
            &&& then.residual.len() == s.residual.len()
        }),
    decreases list.len(),
{
    let hidden = config.hidden as int;
    if list.len() == 0 {
        assert(embedding(config, list) =~= Seq::empty());
    } else {
        let earlier = list.drop_last();
        let last = list.last();
        assert forall|i: int| 0 <= i < earlier.len() implies (#[trigger] earlier[i]).row <= s.residual.len() by {
            assert(earlier[i] == list[i]);
        }
        assert forall|i: int| 0 <= i < earlier.len() && covers(#[trigger] earlier[i], row) implies Value::given(
            CallOp::Patch {
                kind: earlier[i].kind,
                projection: earlier[i].projection,
                row: earlier[i].taken.start + (row - earlier[i].row),
            },
        ) == value by {
            assert(earlier[i] == list[i]);
        }
        embeds_flow(s, config, tokens, earlier, row, value);
        let step = call::embed_step(config, last);
        assert(embedding(config, list) =~= embedding(config, earlier) + seq![step]);
        behind_both(s, hidden, tokens, embedding(config, earlier), seq![step]);
        let before = s.behind(hidden, tokens, embedding(config, earlier));
        behind_one(before, hidden, tokens, step);
        assert(list[list.len() - 1] == last);
        crate::arithmetic::products_grow(last.row as int, hidden, s.residual.len() as int, hidden);
        bytes_are_rows(last.row as int, hidden);
    }
}

/// What is behind the first `count` blocks: the rows whole, or those of the last block with its MLP left over.
spec fn is_reached(s: Stream, rows: Seq<Held>, capture: Seq<usize>, count: int) -> bool {
    match forward::pending_of(capture, count) {
        None => s.residual == stream(rows, count),
        Some(table) => {
            let before = stream(rows, count - 1);
            &&& s.residual == attended(before, count - 1)
            &&& s.delta == left(before, count - 1)
            &&& s.tables[table] == count - 1
        },
    }
}

spec fn looping(steps: Seq<LoopStep>) -> Seq<CallStep> {
    steps.map_values(|step: LoopStep| CallStep::Loop { step })
}

proof fn looped(s: Stream, hidden: int, tokens: int, one: Seq<LoopStep>, other: Seq<LoopStep>)
    ensures
        s.behind(hidden, tokens, looping(one + other)) == s.behind(hidden, tokens, looping(one)).behind(
            hidden,
            tokens,
            looping(other),
        ),
{
    assert(looping(one + other) =~= looping(one) + looping(other));
    behind_both(s, hidden, tokens, looping(one), looping(other));
}

proof fn looped_one(s: Stream, hidden: int, tokens: int, one: LoopStep)
    ensures
        s.behind(hidden, tokens, looping(seq![one])) == s.after_loop(one),
{
    assert(looping(seq![one]) =~= seq![CallStep::Loop { step: one }]);
    behind_one(s, hidden, tokens, CallStep::Loop { step: one });
}

proof fn streams_are_long(rows: Seq<Held>, count: int)
    ensures
        stream(rows, count).len() == rows.len(),
    decreases count,
{
    if count > 0 {
        streams_are_long(rows, count - 1);
    }
}

proof fn the_loop_flows(
    s: Stream,
    hidden: int,
    tokens: int,
    rows: Seq<Held>,
    capture: Seq<usize>,
    sol: bool,
    count: int,
)
    requires
        0 <= count <= usize::MAX,
        s.residual == rows,
        s.delta.len() == rows.len(),
    ensures
        ({
            let then = s.behind(hidden, tokens, looping(forward::loop_of(capture, sol, count)));
            &&& is_reached(then, rows, capture, count)
            &&& then.taken == s.taken + taken_of(rows, capture, count)
            &&& then.projected == s.projected
            &&& then.residual.len() == rows.len()
            &&& then.delta.len() == rows.len()
        }),
    decreases count,
{
    if count == 0 {
        assert(looping(forward::loop_of(capture, sol, 0)) =~= Seq::empty());
        assert(s.taken + Seq::empty() =~= s.taken);
    } else {
        the_loop_flows(s, hidden, tokens, rows, capture, sol, count - 1);
        streams_are_long(rows, count - 1);
        let layer = (count - 1) as usize;
        let table = ((count - 1) % 2) as usize;
        let earlier = forward::loop_of(capture, sol, count - 1);
        let modulate = LoopStep::Modulate { layer, table };
        let block = LoopStep::Block { layer, table, pending: forward::pending_of(capture, count - 1) };
        let route: Seq<LoopStep> = if sol {
            seq![LoopStep::Routed]
        } else {
            Seq::empty()
        };
        let add = LoopStep::AddPending { table };
        let take = LoopStep::Capture { layer };
        let catch: Seq<LoopStep> = if capture.contains(layer) {
            seq![add, take]
        } else {
            Seq::empty()
        };
        let all = forward::loop_of(capture, sol, count);
        assert(all =~= earlier + seq![modulate] + seq![block] + route + catch);
        looped(s, hidden, tokens, earlier + seq![modulate] + seq![block] + route, catch);
        looped(s, hidden, tokens, earlier + seq![modulate] + seq![block], route);
        looped(s, hidden, tokens, earlier + seq![modulate], seq![block]);
        looped(s, hidden, tokens, earlier, seq![modulate]);
        let before = s.behind(hidden, tokens, looping(earlier));
        looped_one(before, hidden, tokens, modulate);
        let filled = before.after_loop(modulate);
        looped_one(filled, hidden, tokens, block);
        let ran = filled.after_loop(block);
        let whole = stream(rows, count - 1);
        match forward::pending_of(capture, count - 1) {
            Some(other) => {
                assert(other != table);
                assert(filled.tables[other] == count - 2);
                let held = stream(rows, count - 2);
                assert(with_left(filled.residual, filled.delta, count - 2) == whole);
            },
            None => {},
        }
        assert(ran.residual =~= attended(whole, count - 1));
        assert(ran.delta =~= left(whole, count - 1));
        if sol {
            looped_one(ran, hidden, tokens, LoopStep::Routed);
        } else {
            assert(looping(route) =~= Seq::empty());
        }
        if capture.contains(layer) {
            assert(catch =~= seq![add] + seq![take]);
            looped(ran, hidden, tokens, seq![add], seq![take]);
            looped_one(ran, hidden, tokens, add);
            let added = ran.after_loop(add);
            looped_one(added, hidden, tokens, take);
            assert(added.residual =~= stream(rows, count));
            let then = added.after_loop(take);
            assert(then.taken =~= s.taken + taken_of(rows, capture, count));
        } else {
            assert(looping(catch) =~= Seq::empty());
        }
    }
}

/// What the block loop leaves.
proof fn the_blocks_flow(
    s: Stream,
    hidden: int,
    tokens: int,
    layers: usize,
    capture: Seq<usize>,
    sol: bool,
)
    requires
        s.delta.len() == s.residual.len(),
    ensures
        ({
            let then = s.behind(hidden, tokens, looping(forward::blocks_of(layers, capture, sol)));
            &&& then.residual == stream(s.residual, layers as int)
            &&& then.taken == s.taken + taken_of(s.residual, capture, layers as int)
            &&& then.projected == s.projected
        }),
{
    let count = layers as int;
    the_loop_flows(s, hidden, tokens, s.residual, capture, sol, count);
    let looped_steps = forward::loop_of(capture, sol, count);
    let last: Seq<LoopStep> = match forward::pending_of(capture, count) {
        Some(table) => seq![LoopStep::AddPending { table }],
        None => Seq::empty(),
    };
    looped(s, hidden, tokens, looped_steps, last);
    let before = s.behind(hidden, tokens, looping(looped_steps));
    match forward::pending_of(capture, count) {
        Some(table) => {
            looped_one(before, hidden, tokens, LoopStep::AddPending { table });
        },
        None => {
            assert(looping(last) =~= Seq::empty());
        },
    }
}

/// Whether every embed of a call is of a segment, as it is embedded.
proof fn embeds_are_of_segments(layout: PackedLayout, rows: Run, index: int)
    requires
        layout.valid(),
        0 <= index < forward::embeds_of(layout, rows).len(),
    ensures
        exists|i: int|
            0 <= i < layout.segments@.len() && #[trigger] forward::embed_of(
                layout.segments@[i],
                projection_of(layout.segments@[i].kind),
                rows,
            ) == Some(forward::embeds_of(layout, rows)[index]),
{
    let segments = layout.segments@;
    let a = choose|i: int| forward::is_first(segments, SegmentKind::Audio, i);
    let v = choose|i: int| forward::is_first(segments, SegmentKind::Video, i);
    let audio = forward::one_or_none(forward::embed_of(segments[a], Projection::Audio, rows));
    let video = forward::one_or_none(forward::embed_of(segments[v], Projection::Video, rows));
    let conditions = forward::condition_embeds(segments, rows, segments.len() as int);
    let list = forward::embeds_of(layout, rows);
    assert(list == audio + video + conditions);
    if index < audio.len() {
        assert(forward::embed_of(segments[a], projection_of(segments[a].kind), rows) == Some(list[index]));
    } else if index < audio.len() + video.len() {
        assert(forward::embed_of(segments[v], projection_of(segments[v].kind), rows) == Some(list[index]));
    } else {
        let place = index - audio.len() - video.len();
        conditions_are_of_segments(segments, rows, segments.len() as int, place);
        assert(list[index] == conditions[place]);
    }
}

proof fn conditions_are_of_segments(segments: Seq<Segment>, rows: Run, count: int, index: int)
    requires
        0 <= count <= segments.len(),
        0 <= index < forward::condition_embeds(segments, rows, count).len(),
    ensures
        exists|i: int|
            0 <= i < segments.len() && #[trigger] forward::embed_of(
                segments[i],
                projection_of(segments[i].kind),
                rows,
            ) == Some(forward::condition_embeds(segments, rows, count)[index]),
    decreases count,
{
    if count > 0 {
        let before = forward::condition_embeds(segments, rows, count - 1);
        let all = forward::condition_embeds(segments, rows, count);
        if index < before.len() {
            conditions_are_of_segments(segments, rows, count - 1, index);
            assert(all[index] == before[index]);
        } else {
            let last = segments[count - 1];
            assert(forward::condition_of(last.kind) == Some(projection_of(last.kind)));
            assert(forward::embed_of(last, projection_of(last.kind), rows) == Some(all[index]));
        }
    }
}

/// An embed of a segment that writes the row of a token holds that token's patch there.
proof fn a_segment_holds_its_row(
    segments: Seq<Segment>,
    total: int,
    rows: Run,
    segment: int,
    other: int,
    embed: Embed,
    place: int,
)
    requires
        shard::is_partition(forward::spans(segments), total),
        0 <= segment < segments.len(),
        0 <= other < segments.len(),
        segments[segment].end <= total,
        segments[segment].span().contains(place),
        rows.contains(place),
        forward::embed_of(segments[other], projection_of(segments[other].kind), rows) == Some(embed),
        covers(embed, place - rows.start),
    ensures
        Value::given(
            CallOp::Patch {
                kind: embed.kind,
                projection: embed.projection,
                row: embed.taken.start + (place - rows.start - embed.row),
            },
        ) == patch_of(segments[segment], place),
{
    let runs = forward::spans(segments);
    assert(runs[segment].contains(place));
    shard::a_partition_holds_each_place_once(runs, total, place);
    assert(runs[other].contains(place));
    assert(segment == other);
}

/// An embed that writes the row of a token holds that token's patch there.
proof fn an_embed_is_of_its_row(layout: PackedLayout, rows: Run, segment: int, place: int, index: int)
    requires
        layout.valid(),
        0 <= segment < layout.segments@.len(),
        layout.segments@[segment].span().contains(place),
        rows.contains(place),
        0 <= index < forward::embeds_of(layout, rows).len(),
    ensures
        ({
            let embed = forward::embeds_of(layout, rows)[index];
            let row = place - rows.start;
            &&& embed.row <= rows.size()
            &&& covers(embed, row) ==> Value::given(
                CallOp::Patch {
                    kind: embed.kind,
                    projection: embed.projection,
                    row: embed.taken.start + (row - embed.row),
                },
            ) == patch_of(layout.segments@[segment], place)
        }),
{
    let segments = layout.segments@;
    let total = layout.total() as int;
    let embed = forward::embeds_of(layout, rows)[index];
    embeds_are_of_segments(layout, rows, index);
    let other = choose|j: int|
        0 <= j < segments.len() && #[trigger] forward::embed_of(
            segments[j],
            projection_of(segments[j].kind),
            rows,
        ) == Some(embed);
    if covers(embed, place - rows.start) {
        assert(forward::spans(segments)[segment].end <= total);
        a_segment_holds_its_row(segments, total, rows, segment, other, embed, place);
    }
}

/// The row of a token that is not text holds its patch once the patches are embedded, and a text row what it held.
proof fn a_row_enters(s: Stream, config: DitConfig, tokens: int, layout: PackedLayout, rows: Run, segment: int, place: int)
    requires
        layout.valid(),
        forall|i: int, j: int|
            0 <= i < layout.segments@.len() && 0 <= j < layout.segments@.len() && (#[trigger] layout.segments@[i]).kind
                == (#[trigger] layout.segments@[j]).kind && (layout.segments@[i].kind == SegmentKind::Audio
                || layout.segments@[i].kind == SegmentKind::Video) ==> i == j,
        0 <= segment < layout.segments@.len(),
        layout.segments@[segment].span().contains(place),
        rows.contains(place),
        config.hidden > 0,
        s.residual.len() == rows.size(),
        rows.size() * config.hidden * 4 <= usize::MAX,
    ensures
        ({
            let then = s.behind(config.hidden as int, tokens, embedding(config, forward::embeds_of(layout, rows)));
            let held = layout.segments@[segment];
            then.residual[place - rows.start] == (if held.kind == SegmentKind::Text {
                s.residual[place - rows.start]
            } else {
                patch_of(held, place)
            })
        }),
{
    let segments = layout.segments@;
    let list = forward::embeds_of(layout, rows);
    let row = place - rows.start;
    let held = segments[segment];
    forward::every_row_is_embedded_once(layout, rows, segment, place);
    assert forall|i: int| 0 <= i < list.len() implies (#[trigger] list[i]).row <= s.residual.len() by {
        an_embed_is_of_its_row(layout, rows, segment, place, i);
    }
    assert forall|i: int| 0 <= i < list.len() && covers(#[trigger] list[i], row) implies Value::given(
        CallOp::Patch {
            kind: list[i].kind,
            projection: list[i].projection,
            row: list[i].taken.start + (row - list[i].row),
        },
    ) == patch_of(held, place) by {
        an_embed_is_of_its_row(layout, rows, segment, place, i);
    }
    embeds_flow(s, config, tokens, list, row, patch_of(held, place));
}

/// The rows that enter the blocks of a call: behind its text and its patches.
pub open spec fn entered(s: Stream, dit: CudaDit, call: RunCall, forward: Forward) -> Seq<Held> {
    s.behind(
        dit.config.hidden as int,
        call.text_tokens as int,
        call::text_steps(forward.text, dit.config, call.text_tokens) + forward.embeds@.map_values(
            |embed: Embed| call::embed_step(dit.config, embed),
        ),
    ).residual
}

/// Every row of a rank enters the blocks as what it is: a text row as the refined text, kept or refined anew, and
/// another row as the patch at its place in its segment.
pub proof fn every_row_enters_as_it_is(
    s: Stream,
    dit: CudaDit,
    layout: PackedLayout,
    call: RunCall,
    cached: Cached,
    forward: Forward,
    segment: int,
    place: int,
)
    requires
        dit.config.hidden > 0,
        layout.valid(),
        dit.is_run(layout, call, cached, forward),
        forall|i: int, j: int|
            0 <= i < layout.segments@.len() && 0 <= j < layout.segments@.len() && (#[trigger] layout.segments@[i]).kind
                == (#[trigger] layout.segments@[j]).kind && (layout.segments@[i].kind == SegmentKind::Audio
                || layout.segments@[i].kind == SegmentKind::Video) ==> i == j,
        forward.rows.start <= forward.rows.end,
        s.has_rows(forward.rows.size()),
        forward.rows.size() * dit.config.hidden * 4 <= usize::MAX,
        call.text_tokens * dit.config.hidden * 4 <= usize::MAX,
        forward.text != TextStates::Elsewhere ==> call.text_tokens <= forward.rows.size(),
        forward.text == TextStates::Copied ==> s.kept == text_rows(
            call.text_tokens as nat,
            dit.config.refiner_layers as int,
        ),
        0 <= segment < layout.segments@.len(),
        layout.segments@[segment].span().contains(place),
        forward.rows.contains(place),
    ensures
        ({
            let held = layout.segments@[segment];
            let row = entered(s, dit, call, forward)[place - forward.rows.start];
            &&& held.kind != SegmentKind::Text ==> row == patch_of(held, place)
            &&& held.kind == SegmentKind::Text && forward.text != TextStates::Elsewhere && place < call.text_tokens
                ==> row == text_rows(call.text_tokens as nat, dit.config.refiner_layers as int)[place]
        }),
{
    let config = dit.config;
    let (hidden, tokens) = (config.hidden as int, call.text_tokens as int);
    let texts = call::text_steps(forward.text, config, call.text_tokens);
    let embeds = embedding(config, forward.embeds@);
    assert(embeds =~= forward.embeds@.map_values(|embed: Embed| call::embed_step(dit.config, embed)));
    behind_both(s, hidden, tokens, texts, embeds);
    the_text_flows(s, forward.text, config, call.text_tokens);
    let texted = s.behind(hidden, tokens, texts);
    a_row_enters(texted, config, tokens, layout, forward.rows, segment, place);
    if forward.text != TextStates::Elsewhere && place < call.text_tokens {
        assert(texted.residual.take(tokens)[place] == texted.residual[place]);
    }
}

/// What the last layer leaves.
proof fn the_last_layer_flows(
    s: Stream,
    config: DitConfig,
    tokens: int,
    rows: int,
    video: Option<Embed>,
    audio: Option<Embed>,
)
    requires
        config.hidden > 0,
        0 <= rows,
        rows * config.hidden * 4 <= usize::MAX,
        s.residual.len() == rows,
        s.projected.len() == rows,
        video matches Some(part) ==> part.row + part.taken.size() <= rows,
        audio matches Some(part) ==> part.row + part.taken.size() <= rows,
    ensures
        ({
            let steps = seq![CallStep::ModulateLast, CallStep::NormalizeLast { rows: rows as usize }]
                + call::velocity_steps(config, Projection::Video, video) + call::velocity_steps(
                config,
                Projection::Audio,
                audio,
            );
            let then = s.behind(config.hidden as int, tokens, steps);
            &&& then.taken == s.taken
            &&& then.kept == s.kept
            &&& video matches Some(part) ==> forall|i: int|
                0 <= i < part.taken.size() ==> #[trigger] then.velocities[Projection::Video][i] == Value::of(
                    CallOp::Velocity { projection: Projection::Video, width: config.video_patch_features },
                    Value::of(CallOp::LastNorm, s.residual[part.row + i]),
                )
            &&& audio matches Some(part) ==> forall|i: int|
                0 <= i < part.taken.size() ==> #[trigger] then.velocities[Projection::Audio][i] == Value::of(
                    CallOp::Velocity { projection: Projection::Audio, width: config.audio_channels },
                    Value::of(CallOp::LastNorm, s.residual[part.row + i]),
                )
        }),
{
    let hidden = config.hidden as int;
    let fill = CallStep::ModulateLast;
    let norm = CallStep::NormalizeLast { rows: rows as usize };
    let shows = call::velocity_steps(config, Projection::Video, video);
    let sounds = call::velocity_steps(config, Projection::Audio, audio);
    behind_both(s, hidden, tokens, seq![fill, norm] + shows, sounds);
    behind_both(s, hidden, tokens, seq![fill, norm], shows);
    behind_two(s, hidden, tokens, fill, norm);
    crate::arithmetic::products_grow(rows, 1, rows, hidden);
    let ready = s.after(hidden, tokens, fill).after(hidden, tokens, norm);
    assert forall|row: int| 0 <= row < rows implies #[trigger] ready.projected[row] == Value::of(
        CallOp::LastNorm,
        s.residual[row],
    ) by {}
    if let Some(part) = video {
        behind_one(ready, hidden, tokens, shows[0]);
        assert(shows =~= seq![shows[0]]);
        crate::arithmetic::products_grow(part.row as int, hidden, rows, hidden);
        bytes_are_rows(part.row as int, hidden);
    }
    let shown = ready.behind(hidden, tokens, shows);
    assert(shown.projected == ready.projected && shown.taken == ready.taken && shown.kept == ready.kept);
    if let Some(part) = audio {
        behind_one(shown, hidden, tokens, sounds[0]);
        assert(sounds =~= seq![sounds[0]]);
        crate::arithmetic::products_grow(part.row as int, hidden, rows, hidden);
        bytes_are_rows(part.row as int, hidden);
    }
}

/// The velocity of each row of a call is the projection of that row, normalized, behind all blocks, and the rows are
/// taken as they are behind each captured block: every block runs once on the rows the block before it left, with its
/// own modulation, and its MLP is added once.
pub proof fn a_call_computes_its_velocities(
    s: Stream,
    dit: CudaDit,
    layout: PackedLayout,
    call: RunCall,
    cached: Cached,
    forward: Forward,
)
    requires
        dit.config.hidden > 0,
        layout.valid(),
        dit.is_run(layout, call, cached, forward),
        forward.rows.start <= forward.rows.end,
        s.has_rows(forward.rows.size()),
        forward.rows.size() * dit.config.hidden * 4 <= usize::MAX,
        call.text_tokens * dit.config.hidden * 4 <= usize::MAX,
        forward.text != TextStates::Elsewhere ==> call.text_tokens <= forward.rows.size(),
        forward.text == TextStates::Copied ==> s.kept == text_rows(
            call.text_tokens as nat,
            dit.config.refiner_layers as int,
        ),
    ensures
        ({
            let config = dit.config;
            let then = s.behind(
                config.hidden as int,
                call.text_tokens as int,
                forward.launches(config, call.text_tokens),
            );
            let rows = entered(s, dit, call, forward);
            let last = stream(rows, config.layers as int);
            &&& then.taken == s.taken + taken_of(rows, call.capture@, config.layers as int)
            &&& forward.text != TextStates::Elsewhere ==> then.kept == text_rows(
                call.text_tokens as nat,
                config.refiner_layers as int,
            )
            &&& forward.video matches Some(part) ==> forall|i: int|
                0 <= i < part.taken.size() ==> #[trigger] then.velocities[Projection::Video][i] == Value::of(
                    CallOp::Velocity { projection: Projection::Video, width: config.video_patch_features },
                    Value::of(CallOp::LastNorm, last[part.row + i]),
                )
            &&& forward.audio matches Some(part) ==> forall|i: int|
                0 <= i < part.taken.size() ==> #[trigger] then.velocities[Projection::Audio][i] == Value::of(
                    CallOp::Velocity { projection: Projection::Audio, width: config.audio_channels },
                    Value::of(CallOp::LastNorm, last[part.row + i]),
                )
        }),
{
    let config = dit.config;
    let (hidden, tokens) = (config.hidden as int, call.text_tokens as int);
    let texts = call::text_steps(forward.text, config, call.text_tokens);
    let embeds = embedding(config, forward.embeds@);
    let blocks = looping(forward.blocks@);
    let fill = CallStep::ModulateLast;
    let norm = CallStep::NormalizeLast { rows: forward.rows.size() as usize };
    let video = call::velocity_steps(config, Projection::Video, forward.video);
    let audio = call::velocity_steps(config, Projection::Audio, forward.audio);
    assert(embeds =~= forward.embeds@.map_values(|embed: Embed| call::embed_step(dit.config, embed)));
    let last = seq![fill, norm] + video + audio;
    assert(forward.launches(config, call.text_tokens) =~= texts + embeds + blocks + last);
    behind_both(s, hidden, tokens, texts + embeds + blocks, last);
    behind_both(s, hidden, tokens, texts + embeds, blocks);
    behind_both(s, hidden, tokens, texts, embeds);
    the_text_flows(s, forward.text, config, call.text_tokens);
    let texted = s.behind(hidden, tokens, texts);
    call::every_part_lies_inside(dit, layout, call, cached, forward);
    embeds_keep(texted, config, tokens, forward.embeds@);
    let begun = texted.behind(hidden, tokens, embeds);
    the_blocks_flow(
        begun,
        hidden,
        tokens,
        config.layers,
        call.capture@,
        forward.method == Some(crate::block::Sparse::Sol),
    );
    let run = begun.behind(hidden, tokens, blocks);
    loops_keep(begun, hidden, tokens, forward.blocks@);
    streams_are_long(begun.residual, config.layers as int);
    the_last_layer_flows(run, config, tokens, forward.rows.size(), forward.video, forward.audio);
}

/// Embeds write the residual stream alone.
proof fn embeds_keep(s: Stream, config: DitConfig, tokens: int, list: Seq<Embed>)
    ensures
        ({
            let then = s.behind(config.hidden as int, tokens, embedding(config, list));
            &&& then == (Stream { residual: then.residual, ..s })
            &&& then.residual.len() == s.residual.len()
        }),
    decreases list.len(),
{
    let hidden = config.hidden as int;
    if list.len() == 0 {
        assert(embedding(config, list) =~= Seq::empty());
    } else {
        let earlier = list.drop_last();
        let step = call::embed_step(config, list.last());
        embeds_keep(s, config, tokens, earlier);
        assert(embedding(config, list) =~= embedding(config, earlier) + seq![step]);
        behind_both(s, hidden, tokens, embedding(config, earlier), seq![step]);
        behind_one(s.behind(hidden, tokens, embedding(config, earlier)), hidden, tokens, step);
    }
}

/// The block loop leaves the kept text as it was.
proof fn loops_keep(s: Stream, hidden: int, tokens: int, steps: Seq<LoopStep>)
    ensures
        s.behind(hidden, tokens, looping(steps)).kept == s.kept,
    decreases steps.len(),
{
    if steps.len() == 0 {
        assert(looping(steps) =~= Seq::empty());
    } else {
        loops_keep(s, hidden, tokens, steps.drop_last());
        assert(steps =~= steps.drop_last() + seq![steps.last()]);
        looped(s, hidden, tokens, steps.drop_last(), seq![steps.last()]);
        looped_one(s.behind(hidden, tokens, looping(steps.drop_last())), hidden, tokens, steps.last());
    }
}

} // verus!
