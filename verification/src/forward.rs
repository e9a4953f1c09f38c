//! What one DiT call does: the rows and heads of this rank, the buffers it takes over from the call before,
//! the places of the inputs in the residual stream, and the order of the blocks.
use crate::arithmetic;
use crate::attention::AttentionPrecision;
use crate::block::{Block, BlockCall, Part, Sparse};
use crate::dit;
use crate::dit::CudaDit;
use crate::model::{DType, Error, LowRank};
use crate::named::Named;
use crate::nvfp4::{Nvfp4Activations, Nvfp4Weight};
use crate::shard;
use crate::shard::{Run, Shard};
use crate::text;
use crate::workspace;
use crate::workspace::{DitConfig, Workspace, WorkspaceShape};
use vstd::prelude::*;

verus! {

/// What the tokens of a segment are. A condition is numbered among the keyframes or the references.
#[derive(Clone, Copy, Debug, PartialEq, Eq, Structural)]
pub enum SegmentKind {
    Text,
    KeyframeVideo(usize),
    KeyframeAudio(usize),
    ReferenceVideo(usize),
    ReferenceAudio(usize),
    Audio,
    Video,
}

/// Tokens of one kind, one behind the other.
#[derive(Clone, Copy, Debug, PartialEq, Eq, Structural)]
pub struct Segment {
    pub kind: SegmentKind,
    pub start: usize,
    pub end: usize,
}

impl Segment {
    pub open spec fn span(self) -> Run {
        Run { start: self.start, end: self.end }
    }

    pub fn run(&self) -> (run: Run)
        ensures
            run == self.span(),
    {
        Run { start: self.start, end: self.end }
    }
}

/// The segments of a sequence.
pub struct PackedLayout {
    pub segments: Vec<Segment>,
}

pub open spec fn spans(segments: Seq<Segment>) -> Seq<Run> {
    Seq::new(segments.len(), |i: int| segments[i].span())
}

/// Whether the segment at `index` is the first one of its kind.
pub open spec fn is_first(segments: Seq<Segment>, kind: SegmentKind, index: int) -> bool {
    &&& 0 <= index < segments.len()
    &&& segments[index].kind == kind
    &&& forall|i: int| 0 <= i < index ==> (#[trigger] segments[i]).kind != kind
}

impl PackedLayout {
    /// The segments follow each other from the first token to the last, and the audio and the video are
    /// among them.
    pub open spec fn valid(self) -> bool {
        &&& self.segments@.len() > 0
        &&& shard::is_partition(spans(self.segments@), self.segments@.last().end as int)
        &&& exists|i: int| is_first(self.segments@, SegmentKind::Audio, i)
        &&& exists|i: int| is_first(self.segments@, SegmentKind::Video, i)
    }

    /// The tokens of the sequence.
    pub open spec fn total(self) -> usize {
        self.segments@.last().end
    }

    /// The tokens of the sequence.
    pub fn len(&self) -> (tokens: usize)
        requires
            self.valid(),
        ensures
            tokens == self.total(),
    {
        self.segments[self.segments.len() - 1].end
    }

    /// The first segment of a kind.
    pub open spec fn of_kind(self, kind: SegmentKind) -> Segment {
        self.segments@[choose|i: int| is_first(self.segments@, kind, i)]
    }

    /// The first segment of a kind.
    pub fn segment(&self, kind: SegmentKind) -> (segment: Segment)
        requires
            exists|i: int| is_first(self.segments@, kind, i),
        ensures
            segment == self.of_kind(kind),
    {
        let count: usize = self.segments.len();
        let ghost wanted = choose|i: int| is_first(self.segments@, kind, i);
        let mut index: usize = 0;
        while self.segments[index].kind != kind
            invariant
                count == self.segments@.len(),
                is_first(self.segments@, kind, wanted),
                index <= wanted < count,
                forall|i: int| 0 <= i < index ==> (#[trigger] self.segments@[i]).kind != kind,
            decreases count - index,
        {
            index = index + 1;
        }
        assert(wanted == index) by {
            if index < wanted {
                assert(self.segments@[index as int].kind != kind);
            }
        }
        self.segments[index]
    }
}

/// Block-sparse attention, for sequences that are long enough.
#[derive(Clone, Copy, Debug, PartialEq, Eq, Structural)]
pub struct SparseAttention {
    pub min_tokens: usize,
    pub method: Sparse,
}

/// The block-sparse attention of a sequence of `tokens` tokens.
pub open spec fn method_of(sparse: Option<SparseAttention>, tokens: usize) -> Option<Sparse> {
    match sparse {
        Some(settings) => if tokens >= settings.min_tokens {
            Some(settings.method)
        } else {
            None
        },
        None => None,
    }
}

/// The block-sparse attention of a sequence of `tokens` tokens.
pub fn sparse_method(sparse: Option<SparseAttention>, tokens: usize) -> (method: Option<Sparse>)
    ensures
        method == method_of(sparse, tokens),
{
    match sparse {
        Some(settings) => if tokens >= settings.min_tokens {
            Some(settings.method)
        } else {
            None
        },
        None => None,
    }
}

/// Tokens and heads an attention workspace is made for.
#[derive(Clone, Copy, Debug, PartialEq, Eq, Structural)]
pub struct Extent {
    pub tokens: usize,
    pub heads: usize,
}

/// A workspace of block-sparse attention.
#[derive(Clone, Copy, Debug, PartialEq, Eq, Structural)]
pub struct SparseHeld {
    pub precision: AttentionPrecision,
    pub extent: Extent,
    /// Whether it is made for the tiles of this call, where it has tiles.
    pub same_tiles: bool,
}

/// What the call before left.
#[derive(Clone, Copy, Debug, PartialEq, Eq, Structural)]
pub struct Cached {
    pub workspace: Option<WorkspaceShape>,
    /// The workspace of quantized attention.
    pub quantized: Option<Extent>,
    pub sparse: Option<SparseHeld>,
    pub vsa: Option<SparseHeld>,
    /// Whether the text it kept, where it kept any, is the text of this call.
    pub text: bool,
}

/// What becomes of a buffer the call before left.
#[derive(Clone, Copy, Debug, PartialEq, Eq, Structural)]
pub enum Kept {
    /// It stays as it is, or there is none.
    AsItWas,
    Dropped,
    /// Another one takes its place.
    Made(Extent),
}

/// What becomes of the workspace of quantized attention, of which there is to be the wanted one.
pub open spec fn kept_quantized(held: Option<Extent>, wanted: Option<Extent>) -> Kept {
    if held == wanted {
        Kept::AsItWas
    } else {
        match wanted {
            None => Kept::Dropped,
            Some(extent) => Kept::Made(extent),
        }
    }
}

fn keep_quantized(held: Option<Extent>, wanted: Option<Extent>) -> (kept: Kept)
    ensures
        kept == kept_quantized(held, wanted),
{
    match (held, wanted) {
        (None, None) => Kept::AsItWas,
        (Some(_), None) => Kept::Dropped,
        (None, Some(extent)) => Kept::Made(extent),
        (Some(one), Some(extent)) => if one == extent {
            Kept::AsItWas
        } else {
            Kept::Made(extent)
        },
    }
}

/// What becomes of a workspace of block-sparse attention.
pub open spec fn kept_sparse(
    held: Option<SparseHeld>,
    wanted: bool,
    precision: AttentionPrecision,
    extent: Extent,
) -> Kept {
    if !wanted {
        Kept::Dropped
    } else {
        match held {
            Some(held) => if held.precision == precision && held.extent == extent && held.same_tiles {
                Kept::AsItWas
            } else {
                Kept::Made(extent)
            },
            None => Kept::Made(extent),
        }
    }
}

fn keep_sparse(held: Option<SparseHeld>, wanted: bool, precision: AttentionPrecision, extent: Extent) -> (kept: Kept)
    ensures
        kept == kept_sparse(held, wanted, precision, extent),
{
    if !wanted {
        return Kept::Dropped;
    }
    match held {
        Some(held) => if held.precision == precision && held.extent == extent && held.same_tiles {
            Kept::AsItWas
        } else {
            Kept::Made(extent)
        },
        None => Kept::Made(extent),
    }
}

/// Where the refined text states come from.
#[derive(Clone, Copy, Debug, PartialEq, Eq, Structural)]
pub enum TextStates {
    /// The text rows fall to another rank.
    Elsewhere,
    /// The call before refined the same text.
    Copied,
    Refined,
}

/// The layer that embeds patches, or projects velocities.
#[derive(Clone, Copy, Debug, PartialEq, Eq, Structural)]
pub enum Projection {
    Audio,
    Video,
}

/// Patches that enter the residual stream.
#[derive(Clone, Copy, Debug, PartialEq, Eq, Structural)]
pub struct Embed {
    pub kind: SegmentKind,
    pub projection: Projection,
    /// The rows of the segment's patches.
    pub taken: Run,
    /// The row of the residual stream they start at.
    pub row: usize,
}

/// The rows of a segment that fall to a rank, counted in the segment and in the rank's rows.
pub open spec fn embed_of(segment: Segment, projection: Projection, rows: Run) -> Option<Embed> {
    match shard::overlap(segment.span(), rows) {
        None => None,
        Some(part) => Some(
            Embed {
                kind: segment.kind,
                projection,
                taken: Run {
                    start: (part.start - segment.start) as usize,
                    end: (part.end - segment.start) as usize,
                },
                row: (part.start - rows.start) as usize,
            },
        ),
    }
}

fn embed(segment: &Segment, projection: Projection, rows: Run) -> (embed: Option<Embed>)
    ensures
        embed == embed_of(*segment, projection, rows),
{
    match segment.run().within(rows) {
        None => None,
        Some(part) => Some(
            Embed {
                kind: segment.kind,
                projection,
                taken: Run { start: part.start - segment.start, end: part.end - segment.start },
                row: part.start - rows.start,
            },
        ),
    }
}

/// The layer that embeds a condition.
pub open spec fn condition_of(kind: SegmentKind) -> Option<Projection> {
    match kind {
        SegmentKind::KeyframeVideo(_) => Some(Projection::Video),
        SegmentKind::KeyframeAudio(_) => Some(Projection::Audio),
        SegmentKind::ReferenceVideo(_) => Some(Projection::Video),
        SegmentKind::ReferenceAudio(_) => Some(Projection::Audio),
        _ => None,
    }
}

fn condition(kind: SegmentKind) -> (projection: Option<Projection>)
    ensures
        projection == condition_of(kind),
{
    match kind {
        SegmentKind::KeyframeVideo(_) => Some(Projection::Video),
        SegmentKind::KeyframeAudio(_) => Some(Projection::Audio),
        SegmentKind::ReferenceVideo(_) => Some(Projection::Video),
        SegmentKind::ReferenceAudio(_) => Some(Projection::Audio),
        _ => None,
    }
}

pub open spec fn one_or_none(embed: Option<Embed>) -> Seq<Embed> {
    match embed {
        Some(embed) => seq![embed],
        None => Seq::empty(),
    }
}

/// The conditions among the first `count` segments that fall to a rank.
pub open spec fn condition_embeds(segments: Seq<Segment>, rows: Run, count: int) -> Seq<Embed>
    decreases count,
{
    if count <= 0 {
        Seq::empty()
    } else {
        condition_embeds(segments, rows, count - 1) + (match condition_of(segments[count - 1].kind) {
            Some(projection) => one_or_none(embed_of(segments[count - 1], projection, rows)),
            None => Seq::empty(),
        })
    }
}

/// What a rank embeds: each segment's patches enter the residual stream at its own place, as far as they
/// fall in the rank's rows.
pub open spec fn embeds_of(layout: PackedLayout, rows: Run) -> Seq<Embed> {
    one_or_none(embed_of(layout.of_kind(SegmentKind::Audio), Projection::Audio, rows)) + one_or_none(
        embed_of(layout.of_kind(SegmentKind::Video), Projection::Video, rows),
    ) + condition_embeds(layout.segments@, rows, layout.segments@.len() as int)
}

/// What a rank embeds.
pub fn embeds(layout: &PackedLayout, rows: Run) -> (list: Vec<Embed>)
    requires
        layout.valid(),
    ensures
        list@ == embeds_of(*layout, rows),
{
    let mut list: Vec<Embed> = Vec::new();
    let audio = layout.segment(SegmentKind::Audio);
    if let Some(one) = embed(&audio, Projection::Audio, rows) {
        list.push(one);
    }
    let video = layout.segment(SegmentKind::Video);
    if let Some(one) = embed(&video, Projection::Video, rows) {
        list.push(one);
    }
    let ghost head = list@;
    assert(head =~= one_or_none(embed_of(audio, Projection::Audio, rows)) + one_or_none(
        embed_of(video, Projection::Video, rows),
    ));
    let count: usize = layout.segments.len();
    for index in 0..count
        invariant
            count == layout.segments@.len(),
            list@ =~= head + condition_embeds(layout.segments@, rows, index as int),
    {
        let segment = layout.segments[index];
        if let Some(projection) = condition(segment.kind) {
            if let Some(one) = embed(&segment, projection, rows) {
                list.push(one);
            }
        }
    }
    list
}

/// One action of the block loop. Each block leaves its gated MLP output to the next, so the tables of two
/// blocks are alive at a time.
#[derive(Clone, Copy, Debug, PartialEq, Eq, Structural)]
pub enum LoopStep {
    /// Fills a modulation table for a block.
    Modulate { layer: usize, table: usize },
    /// Runs a block, which adds the output the block before left with the pending table.
    Block { layer: usize, table: usize, pending: Option<usize> },
    /// Counts the key blocks Sol-Attn routed.
    Routed,
    /// Adds the output a block left.
    AddPending { table: usize },
    /// Takes the residual stream after a block.
    Capture { layer: usize },
}

/// The pending table behind the first `count` blocks.
pub open spec fn pending_of(capture: Seq<usize>, count: int) -> Option<usize> {
    if count <= 0 || capture.contains((count - 1) as usize) {
        None
    } else {
        Some(((count - 1) % 2) as usize)
    }
}

/// The loop over the first `count` blocks.
pub open spec fn loop_of(capture: Seq<usize>, sol: bool, count: int) -> Seq<LoopStep>
    decreases count,
{
    if count <= 0 {
        Seq::empty()
    } else {
        let layer = (count - 1) as usize;
        let table = ((count - 1) % 2) as usize;
        loop_of(capture, sol, count - 1) + seq![
            LoopStep::Modulate { layer, table },
            LoopStep::Block { layer, table, pending: pending_of(capture, count - 1) },
        ] + (if sol {
            seq![LoopStep::Routed]
        } else {
            Seq::empty()
        }) + (if capture.contains(layer) {
            seq![LoopStep::AddPending { table }, LoopStep::Capture { layer }]
        } else {
            Seq::empty()
        })
    }
}

/// The loop over all blocks, and the output the last one left.
pub open spec fn blocks_of(layers: usize, capture: Seq<usize>, sol: bool) -> Seq<LoopStep> {
    loop_of(capture, sol, layers as int) + (match pending_of(capture, layers as int) {
        Some(table) => seq![LoopStep::AddPending { table }],
        None => Seq::empty(),
    })
}

fn is_captured(capture: &Vec<usize>, layer: usize) -> (captured: bool)
    ensures
        captured == capture@.contains(layer),
{
    let count: usize = capture.len();
    for index in 0..count
        invariant
            count == capture@.len(),
            forall|i: int| 0 <= i < index ==> capture@[i] != layer,
    {
        if capture[index] == layer {
            return true;
        }
    }
    false
}

/// The loop over all blocks, with the residual stream taken after the captured ones.
pub fn blocks(layers: usize, capture: &Vec<usize>, sol: bool) -> (steps: Vec<LoopStep>)
    ensures
        steps@ == blocks_of(layers, capture@, sol),
{
    let mut steps: Vec<LoopStep> = Vec::new();
    let mut pending: Option<usize> = None;
    for layer in 0..layers
        invariant
            pending == pending_of(capture@, layer as int),
            steps@ == loop_of(capture@, sol, layer as int),
    {
        let ghost before = steps@;
        let table: usize = layer % 2;
        steps.push(LoopStep::Modulate { layer, table });
        steps.push(LoopStep::Block { layer, table, pending });
        pending = Some(table);
        if sol {
            steps.push(LoopStep::Routed);
        }
        if is_captured(capture, layer) {
            steps.push(LoopStep::AddPending { table });
            pending = None;
            steps.push(LoopStep::Capture { layer });
        }
        assert(steps@ =~= loop_of(capture@, sol, layer + 1));
    }
    if let Some(table) = pending {
        steps.push(LoopStep::AddPending { table });
    }
    assert(steps@ =~= blocks_of(layers, capture@, sol));
    steps
}

/// The residual stream and the tables, as the loop goes on.
pub ghost struct Carried {
    /// The blocks whose MLP output the residual stream has.
    pub added: Seq<int>,
    /// The block whose MLP output is left in the delta.
    pub left: Option<int>,
    /// The blocks the tables are filled for.
    pub tables: Map<usize, int>,
    /// The blocks after which the residual stream was taken.
    pub taken: Seq<int>,
}

/// What an action makes of the residual stream, or none where it would lose an output, add one twice or gate
/// it with another block's table, or take a residual stream that lacks one.
pub open spec fn carry(carried: Carried, step: LoopStep) -> Option<Carried> {
    match step {
        LoopStep::Modulate { layer, table } => Some(
            Carried { tables: carried.tables.insert(table, layer as int), ..carried },
        ),
        LoopStep::Block { layer, table, pending } => {
            if carried.tables[table] != layer {
                None
            } else {
                match (carried.left, pending) {
                    (None, None) => Some(Carried { left: Some(layer as int), ..carried }),
                    (Some(left), Some(other)) => if other != table && carried.tables[other] == left {
                        Some(Carried { left: Some(layer as int), added: carried.added.push(left), ..carried })
                    } else {
                        None
                    },
                    _ => None,
                }
            }
        },
        LoopStep::Routed => Some(carried),
        LoopStep::AddPending { table } => match carried.left {
            Some(left) => if carried.tables[table] == left {
                Some(Carried { left: None, added: carried.added.push(left), ..carried })
            } else {
                None
            },
            None => None,
        },
        LoopStep::Capture { layer } => if carried.left is None && carried.added == Seq::new(
            (layer + 1) as nat,
            |i: int| i,
        ) {
            Some(Carried { taken: carried.taken.push(layer as int), ..carried })
        } else {
            None
        },
    }
}

/// What actions in turn make of the residual stream.
pub open spec fn carried_by(steps: Seq<LoopStep>) -> Option<Carried>
    decreases steps.len(),
{
    if steps.len() == 0 {
        Some(Carried { added: Seq::empty(), left: None, tables: Map::empty(), taken: Seq::empty() })
    } else {
        match carried_by(steps.drop_last()) {
            Some(carried) => carry(carried, steps.last()),
            None => None,
        }
    }
}

proof fn one_more(steps: Seq<LoopStep>, step: LoopStep)
    ensures
        carried_by(steps.push(step)) == (match carried_by(steps) {
            Some(carried) => carry(carried, step),
            None => None,
        }),
{
    assert(steps.push(step).drop_last() =~= steps);
}

/// The captured blocks among the first `count`.
pub open spec fn captured(capture: Seq<usize>, count: int) -> Seq<int>
    decreases count,
{
    if count <= 0 {
        Seq::empty()
    } else if capture.contains((count - 1) as usize) {
        captured(capture, count - 1).push(count - 1)
    } else {
        captured(capture, count - 1)
    }
}

/// What is carried behind the first `count` blocks.
spec fn is_carried(carried: Carried, capture: Seq<usize>, count: int) -> bool {
    &&& carried.taken == captured(capture, count)
    &&& match pending_of(capture, count) {
        None => carried.left is None && carried.added == Seq::new(count as nat, |i: int| i),
        Some(table) => carried.left == Some(count - 1) && carried.added == Seq::new((count - 1) as nat, |i: int| i)
            && carried.tables[table] == count - 1,
    }
}

/// What a block makes of what is carried to it.
proof fn a_block_carries(carried: Carried, capture: Seq<usize>, count: int) -> (next: Carried)
    requires
        0 <= count < usize::MAX,
        is_carried(carried, capture, count),
    ensures
        ({
            let layer = count as usize;
            let table = (count % 2) as usize;
            let filled = carry(carried, LoopStep::Modulate { layer, table });
            &&& filled is Some
            &&& carry(filled->0, LoopStep::Block { layer, table, pending: pending_of(capture, count) }) == Some(next)
            &&& next.left == Some(count)
            &&& next.added == Seq::new(count as nat, |i: int| i)
            &&& next.tables[table] == count
            &&& next.taken == captured(capture, count)
        }),
{
    let layer = count as usize;
    let table = (count % 2) as usize;
    let filled = carry(carried, LoopStep::Modulate { layer, table })->0;
    let next = carry(filled, LoopStep::Block { layer, table, pending: pending_of(capture, count) })->0;
    if let Some(other) = pending_of(capture, count) {
        assert(other != table);
        assert(filled.tables[other] == carried.tables[other]);
        assert(carried.added.push(count - 1) =~= Seq::new(count as nat, |i: int| i));
    }
    next
}

/// What the output of a captured block makes of what it left.
proof fn a_capture_carries(carried: Carried, capture: Seq<usize>, count: int) -> (next: Carried)
    requires
        0 <= count < usize::MAX,
        capture.contains(count as usize),
        carried.left == Some(count),
        carried.added == Seq::new(count as nat, |i: int| i),
        carried.tables[(count % 2) as usize] == count,
        carried.taken == captured(capture, count),
    ensures
        ({
            let whole = carry(carried, LoopStep::AddPending { table: (count % 2) as usize });
            &&& whole is Some
            &&& carry(whole->0, LoopStep::Capture { layer: count as usize }) == Some(next)
            &&& is_carried(next, capture, count + 1)
        }),
{
    let whole = carry(carried, LoopStep::AddPending { table: (count % 2) as usize })->0;
    assert(whole.added =~= Seq::new((count + 1) as nat, |i: int| i));
    carry(whole, LoopStep::Capture { layer: count as usize })->0
}

proof fn the_loop_carries(capture: Seq<usize>, sol: bool, count: int)
    requires
        0 <= count <= usize::MAX,
    ensures
        carried_by(loop_of(capture, sol, count)) matches Some(carried) && is_carried(carried, capture, count),
    decreases count,
{
    if count == 0 {
        let carried = carried_by(loop_of(capture, sol, 0))->0;
        assert(carried.added =~= Seq::new(0, |i: int| i));
    } else {
        the_loop_carries(capture, sol, count - 1);
        let layer = (count - 1) as usize;
        let table = ((count - 1) % 2) as usize;
        let before = loop_of(capture, sol, count - 1);
        let state = carried_by(before)->0;
        let modulate = LoopStep::Modulate { layer, table };
        let block = LoopStep::Block { layer, table, pending: pending_of(capture, count - 1) };
        let next = a_block_carries(state, capture, count - 1);
        one_more(before, modulate);
        one_more(before.push(modulate), block);
        let ran = before.push(modulate).push(block);
        assert(carried_by(ran) == Some(next));
        one_more(ran, LoopStep::Routed);
        let counted = if sol {
            ran.push(LoopStep::Routed)
        } else {
            ran
        };
        assert(carried_by(counted) == Some(next));
        if capture.contains(layer) {
            let add = LoopStep::AddPending { table };
            let take = LoopStep::Capture { layer };
            let taken = a_capture_carries(next, capture, count - 1);
            one_more(counted, add);
            one_more(counted.push(add), take);
            assert(loop_of(capture, sol, count) =~= counted.push(add).push(take));
        } else {
            assert(loop_of(capture, sol, count) =~= counted);
        }
    }
}

/// Over the loop, the residual stream gets every block's MLP output once, in turn and gated by that block's
/// own table, and it is whole wherever it is taken.
pub proof fn every_block_is_added_once(layers: usize, capture: Seq<usize>, sol: bool)
    ensures
        carried_by(blocks_of(layers, capture, sol)) matches Some(carried) && {
            &&& carried.added == Seq::new(layers as nat, |i: int| i)
            &&& carried.left is None
            &&& carried.taken == captured(capture, layers as int)
        },
{
    the_loop_carries(capture, sol, layers as int);
    let steps = loop_of(capture, sol, layers as int);
    match pending_of(capture, layers as int) {
        Some(table) => {
            one_more(steps, LoopStep::AddPending { table });
            assert(blocks_of(layers, capture, sol) =~= steps.push(LoopStep::AddPending { table }));
            let carried = carried_by(blocks_of(layers, capture, sol))->0;
            assert(carried.added =~= Seq::new(layers as nat, |i: int| i));
        },
        None => {
            assert(blocks_of(layers, capture, sol) =~= steps);
        },
    }
}

/// How a DiT is called.
pub struct RunCall {
    /// Rows of the text context.
    pub text_tokens: usize,
    /// The blocks after which the residual stream is taken.
    pub capture: Vec<usize>,
    pub sparse: Option<SparseAttention>,
    /// How the step is shared out, where it is.
    pub shard: Option<Shard>,
}

/// What a call does.
pub struct Forward {
    /// The rows this rank carries through the blocks. Without a shard that is every row.
    pub rows: Run,
    /// The heads it attends with.
    pub heads: Run,
    pub tokens: usize,
    pub shape: WorkspaceShape,
    /// Whether the workspace of the call before serves, with its residual stream set to zero.
    pub reused: bool,
    pub method: Option<Sparse>,
    /// Whether dense attention is quantized.
    pub quantized: bool,
    pub kept_quantized: Kept,
    pub kept_sparse: Kept,
    pub kept_vsa: Kept,
    pub text: TextStates,
    pub embeds: Vec<Embed>,
    /// The rows before the video, which NVFP4 layers leave to their INT8 weights.
    pub head: usize,
    pub blocks: Vec<LoopStep>,
    /// The rows of the video and the audio segment whose velocity this rank projects.
    pub video: Option<Embed>,
    pub audio: Option<Embed>,
}

/// The widest scratch rows of the adapters: no adapter needs more, and one needs as many, if there is any.
pub open spec fn is_adapter_rank(adapters: Map<Seq<char>, LowRank>, rank: usize) -> bool {
    &&& forall|name: Seq<char>| #[trigger] adapters.dom().contains(name) ==> adapters[name].scratch() <= rank
    &&& rank > 0 ==> exists|name: Seq<char>|
        #[trigger] adapters.dom().contains(name) && adapters[name].scratch() == rank
}

/// The widest rows of the NVFP4 layers.
pub open spec fn is_nvfp4_columns(weights: Map<Seq<char>, Nvfp4Weight>, columns: usize) -> bool {
    &&& forall|name: Seq<char>| #[trigger] weights.dom().contains(name) ==> weights[name].columns <= columns
    &&& columns > 0 ==> exists|name: Seq<char>|
        #[trigger] weights.dom().contains(name) && weights[name].columns == columns
}

/// The largest rank of the NVFP4 layers' adapters.
pub open spec fn is_nvfp4_rank(weights: Map<Seq<char>, Nvfp4Weight>, rank: usize) -> bool {
    &&& forall|name: Seq<char>| #[trigger] weights.dom().contains(name) ==> weights[name].rank <= rank
    &&& rank > 0 ==> exists|name: Seq<char>| #[trigger] weights.dom().contains(name) && weights[name].rank == rank
}

fn adapter_rank(adapters: &Named<LowRank>) -> (rank: usize)
    requires
        adapters.valid(),
    ensures
        is_adapter_rank(adapters@, rank),
{
    let mut rank: usize = 0;
    let ghost mut widest: int = 0;
    let count: usize = adapters.len();
    for index in 0..count
        invariant
            count == adapters.entries().len(),
            forall|i: int| 0 <= i < index ==> (#[trigger] adapters.entries()[i]).value.scratch() <= rank,
            rank > 0 ==> 0 <= widest < index && adapters.entries()[widest].value.scratch() == rank,
    {
        let columns: usize = adapters.at(index).scratch_columns();
        if columns > rank {
            rank = columns;
            proof {
                widest = index as int;
            }
        }
    }
    proof {
        assert forall|name: Seq<char>| #[trigger] adapters@.dom().contains(name) implies adapters@[name].scratch()
            <= rank by {
            let index = adapters.value_has_entry(name);
            assert(adapters.entries()[index].value.scratch() <= rank);
        }
        if rank > 0 {
            adapters.entry_is_value(widest);
        }
    }
    rank
}

fn nvfp4_columns(weights: &Named<Nvfp4Weight>) -> (columns: usize)
    requires
        weights.valid(),
    ensures
        is_nvfp4_columns(weights@, columns),
{
    let mut columns: usize = 0;
    let ghost mut widest: int = 0;
    let count: usize = weights.len();
    for index in 0..count
        invariant
            count == weights.entries().len(),
            forall|i: int| 0 <= i < index ==> (#[trigger] weights.entries()[i]).value.columns <= columns,
            columns > 0 ==> 0 <= widest < index && weights.entries()[widest].value.columns == columns,
    {
        let held: usize = weights.at(index).columns;
        if held > columns {
            columns = held;
            proof {
                widest = index as int;
            }
        }
    }
    proof {
        assert forall|name: Seq<char>| #[trigger] weights@.dom().contains(name) implies weights@[name].columns
            <= columns by {
            let index = weights.value_has_entry(name);
            assert(weights.entries()[index].value.columns <= columns);
        }
        if columns > 0 {
            weights.entry_is_value(widest);
        }
    }
    columns
}

fn nvfp4_rank(weights: &Named<Nvfp4Weight>) -> (rank: usize)
    requires
        weights.valid(),
    ensures
        is_nvfp4_rank(weights@, rank),
{
    let mut rank: usize = 0;
    let ghost mut widest: int = 0;
    let count: usize = weights.len();
    for index in 0..count
        invariant
            count == weights.entries().len(),
            forall|i: int| 0 <= i < index ==> (#[trigger] weights.entries()[i]).value.rank <= rank,
            rank > 0 ==> 0 <= widest < index && weights.entries()[widest].value.rank == rank,
    {
        let held: usize = weights.at(index).adapter_rank();
        if held > rank {
            rank = held;
            proof {
                widest = index as int;
            }
        }
    }
    proof {
        assert forall|name: Seq<char>| #[trigger] weights@.dom().contains(name) implies weights@[name].rank
            <= rank by {
            let index = weights.value_has_entry(name);
            assert(weights.entries()[index].value.rank <= rank);
        }
        if rank > 0 {
            weights.entry_is_value(widest);
        }
    }
    rank
}

/// The rows of a call that fall to this rank.
pub open spec fn rows_of(layout: PackedLayout, call: RunCall) -> Run {
    match call.shard {
        Some(shard) => shard.tokens@[shard.rank as int],
        None => Run { start: 0, end: layout.total() },
    }
}

/// The heads of a call that fall to this rank.
pub open spec fn heads_of(dit: CudaDit, call: RunCall) -> Run {
    match call.shard {
        Some(shard) => shard.heads@[shard.rank as int],
        None => Run { start: 0, end: dit.config.heads },
    }
}

impl CudaDit {
    /// Whether a layer of a main block is INT8.
    pub open spec fn int8_part(self, layer: nat, part: Part) -> bool {
        self.tensors.find(CudaDit::part_name(layer, part) + ".weight"@) matches Some(weight) && weight.dtype
            == DType::I8
    }

    fn is_int8_part(&self, layer: usize, part: Part) -> (int8: bool)
        requires
            self.valid(),
        ensures
            int8 == self.int8_part(layer as nat, part),
    {
        let mut name = dit::prefix_of(layer);
        name.append(part.suffix());
        self.tensors.is_int8(name.as_str())
    }

    /// Whether every main block writes SwiGLU directly, so that only the refiner's MLPs write the gates and
    /// up projections.
    pub open spec fn fused(self) -> bool {
        forall|layer: nat|
            layer < self.config.layers ==> #[trigger] self.int8_part(layer, Part::Fc1)
                && !self.nvfp4@.dom().contains(CudaDit::part_name(layer, Part::Fc1))
    }

    fn is_fused(&self) -> (fused: bool)
        requires
            self.valid(),
        ensures
            fused == self.fused(),
    {
        for layer in 0..self.config.layers
            invariant
                self.valid(),
                forall|before: nat|
                    before < layer ==> #[trigger] self.int8_part(before, Part::Fc1) && !self.nvfp4@.dom().contains(
                        CudaDit::part_name(before, Part::Fc1),
                    ),
        {
            let mut name = dit::prefix_of(layer);
            name.append(Part::Fc1.suffix());
            if !self.is_int8_part(layer, Part::Fc1) || self.nvfp4.contains(name.as_str()) {
                assert(!(self.int8_part(layer as nat, Part::Fc1) && !self.nvfp4@.dom().contains(
                    CudaDit::part_name(layer as nat, Part::Fc1),
                )));
                return false;
            }
        }
        true
    }

    /// Whether a block is the first one without an INT8 qkv projection.
    pub open spec fn first_without_int8(self, layer: nat) -> bool {
        &&& layer < self.config.layers
        &&& !self.int8_part(layer, Part::Qkv)
        &&& forall|before: nat| before < layer ==> #[trigger] self.int8_part(before, Part::Qkv)
    }

    /// Whether every main block has an INT8 qkv projection.
    pub open spec fn all_int8(self) -> bool {
        forall|layer: nat| layer < self.config.layers ==> #[trigger] self.int8_part(layer, Part::Qkv)
    }

    fn without_int8(&self) -> (layer: Option<usize>)
        requires
            self.valid(),
        ensures
            match layer {
                Some(layer) => self.first_without_int8(layer as nat) && !self.all_int8(),
                None => self.all_int8(),
            },
    {
        for layer in 0..self.config.layers
            invariant
                self.valid(),
                forall|before: nat| before < layer ==> #[trigger] self.int8_part(before, Part::Qkv),
        {
            if !self.is_int8_part(layer, Part::Qkv) {
                assert(!self.int8_part(layer as nat, Part::Qkv));
                return Some(layer);
            }
        }
        None
    }

    /// Whether the step can be shared out, and what is said where it cannot. A rank exchanges the quantized
    /// block input, which only the fused normalize and quantize pass of an INT8 qkv projection writes.
    pub open spec fn shares_out(
        self,
        shard: Shard,
        tokens: usize,
        call: RunCall,
        result: Result<(), Error>,
    ) -> bool {
        if shard::covered(shard.tokens@, shard.tokens@.len() as int) != tokens || shard::covered(
            shard.heads@,
            shard.heads@.len() as int,
        ) != self.config.heads {
            result matches Err(error) && error.says("a shard that does not cover the step"@)
        } else if call.capture@.len() > 0 {
            result matches Err(error) && error.says("a sharded step cannot capture blocks"@)
        } else if self.nvfp4.entries().len() > 0 {
            result matches Err(error) && error.says("a sharded step cannot run NVFP4 layers"@)
        } else if !self.all_int8() {
            result matches Err(error) && exists|layer: nat|
                #[trigger] self.first_without_int8(layer) && error.says(
                    "a sharded step needs INT8 attention projections, and block "@ + text::decimal(layer)
                        + " has none"@,
                )
        } else if shard.rank > 0 && shard.tokens@[shard.rank as int].start < call.text_tokens {
            result matches Err(error) && error.says("the text rows must fall to rank 0 alone"@)
        } else {
            result is Ok
        }
    }

    fn check_shard(&self, shard: &Shard, tokens: usize, call: &RunCall) -> (result: Result<(), Error>)
        requires
            self.valid(),
            shard.valid(),
        ensures
            self.shares_out(*shard, tokens, *call, result),
    {
        if !shard.covers(tokens, self.config.heads) {
            return Err(Error::Model(String::from_str("a shard that does not cover the step")));
        }
        if call.capture.len() > 0 {
            return Err(Error::Model(String::from_str("a sharded step cannot capture blocks")));
        }
        if !self.nvfp4.is_empty() {
            return Err(Error::Model(String::from_str("a sharded step cannot run NVFP4 layers")));
        }
        if let Some(layer) = self.without_int8() {
            let mut message = String::from_str(
                "a sharded step needs INT8 attention projections, and block ",
            );
            text::push_size(&mut message, layer);
            message.append(" has none");
            assert(self.first_without_int8(layer as nat));
            return Err(Error::Model(message));
        }
        if shard.rank > 0 && shard.own_tokens().start < call.text_tokens {
            return Err(Error::Model(String::from_str("the text rows must fall to rank 0 alone")));
        }
        Ok(())
    }

    /// The rows of the gates and up projections a call needs.
    pub open spec fn expanded_rows(self, rows: Run, text_tokens: usize) -> int {
        if self.fused() {
            arithmetic::min(arithmetic::max(text_tokens - rows.start, 0), rows.size())
        } else {
            rows.size()
        }
    }

    /// Whether a workspace of this shape is what a call needs.
    pub open spec fn is_shape(self, layout: PackedLayout, call: RunCall, shape: WorkspaceShape) -> bool {
        let rows = rows_of(layout, call);
        &&& shape.tokens == rows.size()
        &&& shape.expanded_rows == self.expanded_rows(rows, call.text_tokens)
        &&& is_adapter_rank(self.adapters@, shape.adapter_rank)
        &&& shape.adapter_rows == layout.total()
        &&& shape.gated == (method_of(call.sparse, layout.total()) == Some(Sparse::Vsa) && self.tensors.find(
            "blocks.0.attn.to_gate_compress.weight"@,
        ) is Some)
        &&& is_nvfp4_columns(self.nvfp4@, shape.nvfp4_columns)
        &&& is_nvfp4_rank(self.nvfp4@, shape.nvfp4_adapter_rank)
    }

    fn shape(&self, rows: Run, tokens: usize, method: Option<Sparse>, text_tokens: usize) -> (shape: WorkspaceShape)
        requires
            self.valid(),
        ensures
            shape.tokens == rows.size(),
            shape.expanded_rows == self.expanded_rows(rows, text_tokens),
            is_adapter_rank(self.adapters@, shape.adapter_rank),
            shape.adapter_rows == tokens,
            shape.gated == (method == Some(Sparse::Vsa) && self.tensors.find(
                "blocks.0.attn.to_gate_compress.weight"@,
            ) is Some),
            is_nvfp4_columns(self.nvfp4@, shape.nvfp4_columns),
            is_nvfp4_rank(self.nvfp4@, shape.nvfp4_adapter_rank),
    {
        let vsa = match method {
            Some(Sparse::Vsa) => true,
            _ => false,
        };
        WorkspaceShape {
            tokens: rows.len(),
            expanded_rows: if self.is_fused() {
                arithmetic::least(text_tokens.saturating_sub(rows.start), rows.len())
            } else {
                rows.len()
            },
            adapter_rank: adapter_rank(&self.adapters),
            adapter_rows: tokens,
            gated: vsa && self.has_vsa_gates(),
            nvfp4_columns: nvfp4_columns(&self.nvfp4),
            nvfp4_adapter_rank: nvfp4_rank(&self.nvfp4),
        }
    }

    /// Whether `forward` is what a call does.
    pub open spec fn is_run(self, layout: PackedLayout, call: RunCall, cached: Cached, forward: Forward) -> bool {
        let rows = rows_of(layout, call);
        let heads = heads_of(self, call);
        let tokens = layout.total();
        let extent = Extent { tokens, heads: heads.size() as usize };
        let precision = self.attention_precision;
        &&& forward.rows == rows
        &&& forward.heads == heads
        &&& forward.tokens == tokens
        &&& self.is_shape(layout, call, forward.shape)
        &&& forward.reused == (cached.workspace == Some(forward.shape))
        &&& forward.method == method_of(call.sparse, tokens)
        &&& forward.quantized == (precision == AttentionPrecision::Int8Fp8 && forward.method is None)
        &&& forward.kept_quantized == kept_quantized(
            if forward.reused {
                cached.quantized
            } else {
                None
            },
            if forward.quantized {
                Some(extent)
            } else {
                None
            },
        )
        &&& forward.kept_sparse == kept_sparse(
            cached.sparse,
            forward.method == Some(Sparse::Sol),
            precision,
            extent,
        )
        &&& forward.kept_vsa == kept_sparse(cached.vsa, forward.method == Some(Sparse::Vsa), precision, extent)
        &&& forward.text == (if rows.start > 0 {
            TextStates::Elsewhere
        } else if self.text_kept && cached.text {
            TextStates::Copied
        } else {
            TextStates::Refined
        })
        &&& forward.embeds@ == embeds_of(layout, rows)
        &&& forward.head == (if self.nvfp4.entries().len() == 0 {
            0
        } else {
            layout.of_kind(SegmentKind::Video).start
        })
        &&& forward.blocks@ == blocks_of(self.config.layers, call.capture@, forward.method == Some(Sparse::Sol))
        &&& forward.video == embed_of(layout.of_kind(SegmentKind::Video), Projection::Video, rows)
        &&& forward.audio == embed_of(layout.of_kind(SegmentKind::Audio), Projection::Audio, rows)
    }

    /// What a call does, or why it does not. A shared-out step is refused as `shares_out` says, and every
    /// other call is taken.
    pub fn run(&self, layout: &PackedLayout, call: &RunCall, cached: &Cached) -> (forward: Result<Forward, Error>)
        requires
            self.valid(),
            layout.valid(),
            call.shard matches Some(shard) ==> shard.valid(),
        ensures
            match forward {
                Ok(forward) => {
                    &&& call.shard matches Some(shard) ==> self.shares_out(shard, layout.total(), *call, Ok(()))
                    &&& self.is_run(*layout, *call, *cached, forward)
                },
                Err(error) => call.shard matches Some(shard) && self.shares_out(
                    shard,
                    layout.total(),
                    *call,
                    Err(error),
                ),
            },
    {
        let tokens: usize = layout.len();
        let (rows, heads) = match &call.shard {
            Some(shard) => (shard.own_tokens(), shard.own_heads()),
            None => (Run { start: 0, end: tokens }, Run { start: 0, end: self.config.heads }),
        };
        if let Some(shard) = &call.shard {
            self.check_shard(shard, tokens, call)?;
        }
        let method = sparse_method(call.sparse, tokens);
        let (sol, vsa) = match method {
            Some(Sparse::Sol) => (true, false),
            Some(Sparse::Vsa) => (false, true),
            None => (false, false),
        };
        let shape = self.shape(rows, tokens, method, call.text_tokens);
        let reused = match cached.workspace {
            Some(held) => held == shape,
            None => false,
        };
        let quantized = self.attention_precision == AttentionPrecision::Int8Fp8 && method.is_none();
        let extent = Extent { tokens, heads: heads.len() };
        let held = if reused {
            cached.quantized
        } else {
            None
        };
        let wanted = if quantized {
            Some(extent)
        } else {
            None
        };
        let video = layout.segment(SegmentKind::Video);
        let audio = layout.segment(SegmentKind::Audio);
        Ok(
            Forward {
                rows,
                heads,
                tokens,
                shape,
                reused,
                method,
                quantized,
                kept_quantized: keep_quantized(held, wanted),
                kept_sparse: keep_sparse(cached.sparse, sol, self.attention_precision, extent),
                kept_vsa: keep_sparse(cached.vsa, vsa, self.attention_precision, extent),
                text: if rows.start > 0 {
                    TextStates::Elsewhere
                } else if self.text_kept && cached.text {
                    TextStates::Copied
                } else {
                    TextStates::Refined
                },
                embeds: embeds(layout, rows),
                head: if self.nvfp4.is_empty() {
                    0
                } else {
                    video.start
                },
                blocks: blocks(self.config.layers, &call.capture, sol),
                video: embed(&video, Projection::Video, rows),
                audio: embed(&audio, Projection::Audio, rows),
            },
        )
    }

    /// What a call that is not shared out does.
    pub fn forward(
        &self,
        layout: &PackedLayout,
        text_tokens: usize,
        capture: Vec<usize>,
        sparse: Option<SparseAttention>,
        cached: &Cached,
    ) -> (forward: Result<Forward, Error>)
        requires
            self.valid(),
            layout.valid(),
        ensures
            forward matches Ok(forward) && self.is_run(
                *layout,
                (RunCall { text_tokens, capture, sparse, shard: None }),
                *cached,
                forward,
            ),
    {
        let call = RunCall { text_tokens, capture, sparse, shard: None };
        self.run(layout, &call, cached)
    }

    /// What one rank's share of a step does, or why it does not. Ulysses gives this rank a run of the
    /// sequence to carry through the blocks and a run of the heads to attend with.
    pub fn forward_shard(
        &self,
        layout: &PackedLayout,
        text_tokens: usize,
        sparse: Option<SparseAttention>,
        shard: Shard,
        cached: &Cached,
    ) -> (forward: Result<Forward, Error>)
        requires
            self.valid(),
            layout.valid(),
            shard.valid(),
        ensures
            exists|capture: Vec<usize>| capture@.len() == 0 && #[trigger] self.is_shared_run(
                *layout,
                (RunCall { text_tokens, capture, sparse, shard: Some(shard) }),
                *cached,
                forward,
            ),
    {
        let call = RunCall { text_tokens, capture: Vec::new(), sparse, shard: Some(shard) };
        let forward = self.run(layout, &call, cached);
        assert(self.is_shared_run(*layout, call, *cached, forward));
        forward
    }

    /// Whether `forward` is what a shared-out call does, or why it does not.
    pub open spec fn is_shared_run(
        self,
        layout: PackedLayout,
        call: RunCall,
        cached: Cached,
        forward: Result<Forward, Error>,
    ) -> bool {
        &&& call.shard matches Some(shard)
        &&& match forward {
            Ok(forward) => self.shares_out(shard, layout.total(), call, Ok(())) && self.is_run(
                layout,
                call,
                cached,
                forward,
            ),
            Err(error) => self.shares_out(shard, layout.total(), call, Err(error)),
        }
    }
}

/// How many embeds write a row of a rank.
pub open spec fn embedded(list: Seq<Embed>, row: int) -> nat
    decreases list.len(),
{
    if list.len() == 0 {
        0
    } else {
        embedded(list.drop_last(), row) + (if list.last().row <= row < list.last().row + list.last().taken.size() {
            1nat
        } else {
            0nat
        })
    }
}

proof fn embeds_add(one: Seq<Embed>, other: Seq<Embed>, row: int)
    ensures
        embedded(one + other, row) == embedded(one, row) + embedded(other, row),
    decreases other.len(),
{
    if other.len() == 0 {
        assert(one + other =~= one);
    } else {
        embeds_add(one, other.drop_last(), row);
        assert((one + other).drop_last() =~= one + other.drop_last());
    }
}

proof fn one_embed(segment: Segment, projection: Projection, rows: Run, place: int)
    requires
        rows.contains(place),
    ensures
        embedded(one_or_none(embed_of(segment, projection, rows)), place - rows.start) == (if segment.span().contains(
            place,
        ) {
            1nat
        } else {
            0nat
        }),
{
    reveal_with_fuel(embedded, 2);
}

proof fn conditions_embedded(segments: Seq<Segment>, rows: Run, total: int, place: int, holder: int, count: int)
    requires
        shard::is_partition(spans(segments), total),
        rows.contains(place),
        0 <= place < total,
        0 <= holder < segments.len(),
        segments[holder].span().contains(place),
        0 <= count <= segments.len(),
    ensures
        embedded(condition_embeds(segments, rows, count), place - rows.start) == (if holder < count && condition_of(
            segments[holder].kind,
        ) is Some {
            1nat
        } else {
            0nat
        }),
    decreases count,
{
    if count > 0 {
        conditions_embedded(segments, rows, total, place, holder, count - 1);
        let before = condition_embeds(segments, rows, count - 1);
        let last = segments[count - 1];
        shard::a_partition_holds_each_place_once(spans(segments), total, place);
        assert(spans(segments)[holder].contains(place));
        assert(spans(segments)[count - 1] == last.span());
        if last.span().contains(place) {
            assert(spans(segments)[count - 1].contains(place));
        }
        match condition_of(last.kind) {
            Some(projection) => {
                one_embed(last, projection, rows, place);
                embeds_add(before, one_or_none(embed_of(last, projection, rows)), place - rows.start);
            },
            None => {
                assert(before + Seq::<Embed>::empty() =~= before);
            },
        }
    }
}

proof fn a_segment_embedded(
    segments: Seq<Segment>,
    projection: Projection,
    rows: Run,
    total: int,
    place: int,
    holder: int,
    which: int,
)
    requires
        shard::is_partition(spans(segments), total),
        rows.contains(place),
        0 <= holder < segments.len(),
        0 <= which < segments.len(),
        segments[holder].span().contains(place),
    ensures
        embedded(one_or_none(embed_of(segments[which], projection, rows)), place - rows.start) == (if which == holder {
            1nat
        } else {
            0nat
        }),
{
    one_embed(segments[which], projection, rows, place);
    assert(spans(segments)[holder].contains(place));
    assert(spans(segments)[holder].end <= total);
    shard::a_partition_holds_each_place_once(spans(segments), total, place);
    assert(spans(segments)[which] == segments[which].span());
    if segments[which].span().contains(place) {
        assert(spans(segments)[which].contains(place));
    }
}

/// Every row of a rank but the text rows is embedded once, in a sequence with one segment of audio and one of
/// video.
pub proof fn every_row_is_embedded_once(layout: PackedLayout, rows: Run, segment: int, place: int)
    requires
        layout.valid(),
        forall|i: int, j: int|
            0 <= i < layout.segments@.len() && 0 <= j < layout.segments@.len() && (#[trigger] layout.segments@[i]).kind
                == (#[trigger] layout.segments@[j]).kind && (layout.segments@[i].kind == SegmentKind::Audio
                || layout.segments@[i].kind == SegmentKind::Video) ==> i == j,
        0 <= segment < layout.segments@.len(),
        layout.segments@[segment].span().contains(place),
        rows.contains(place),
    ensures
        embedded(embeds_of(layout, rows), place - rows.start) == (if layout.segments@[segment].kind
            == SegmentKind::Text {
            0nat
        } else {
            1nat
        }),
{
    let segments = layout.segments@;
    let total = layout.total() as int;
    let row = place - rows.start;
    let a = choose|i: int| is_first(segments, SegmentKind::Audio, i);
    let v = choose|i: int| is_first(segments, SegmentKind::Video, i);
    let audio = one_or_none(embed_of(segments[a], Projection::Audio, rows));
    let video = one_or_none(embed_of(segments[v], Projection::Video, rows));
    let conditions = condition_embeds(segments, rows, segments.len() as int);
    assert(spans(segments)[segment].contains(place));
    assert(spans(segments)[segment].end <= total);
    a_segment_embedded(segments, Projection::Audio, rows, total, place, segment, a);
    a_segment_embedded(segments, Projection::Video, rows, total, place, segment, v);
    conditions_embedded(segments, rows, total, place, segment, segments.len() as int);
    embeds_add(audio, video, row);
    embeds_add(audio + video, conditions, row);
    assert(segment == a <==> segments[segment].kind == SegmentKind::Audio);
    assert(segment == v <==> segments[segment].kind == SegmentKind::Video);
}

impl Forward {
    /// How a main block is called.
    pub open spec fn main_call(self, config: DitConfig, sharded: bool, pending: bool) -> BlockCall {
        BlockCall {
            tokens: self.rows.size() as usize,
            head: self.head,
            heads: config.heads,
            pairs: (3 * config.rope_frequencies) as usize,
            ffn: config.ffn,
            modulated: true,
            pending,
            sparse: self.method,
            quantized: self.quantized,
            sharded,
            gate: self.shape.gated,
            activations: activations_of(self.shape),
        }
    }

    /// How a main block is called.
    pub fn block_call(&self, config: &DitConfig, sharded: bool, pending: bool) -> (call: BlockCall)
        requires
            3 * config.rope_frequencies <= usize::MAX,
        ensures
            call == self.main_call(*config, sharded, pending),
    {
        BlockCall {
            tokens: self.rows.len(),
            head: self.head,
            heads: config.heads,
            pairs: 3 * config.rope_frequencies,
            ffn: config.ffn,
            modulated: true,
            pending,
            sparse: self.method,
            quantized: self.quantized,
            sharded,
            gate: self.shape.gated,
            activations: activations(&self.shape),
        }
    }

    /// How a block of the text refiner is called, on the text rows alone and without modulation.
    pub open spec fn text_call(self, config: DitConfig, text_tokens: usize) -> BlockCall {
        BlockCall {
            tokens: text_tokens,
            head: 0,
            modulated: false,
            sparse: None,
            ..self.main_call(config, false, false)
        }
    }

    /// How a block of the text refiner is called.
    pub fn refiner_call(&self, config: &DitConfig, text_tokens: usize) -> (call: BlockCall)
        requires
            3 * config.rope_frequencies <= usize::MAX,
        ensures
            call == self.text_call(*config, text_tokens),
    {
        let call = self.block_call(config, false, false);
        BlockCall { tokens: text_tokens, head: 0, modulated: false, sparse: None, ..call }
    }
}

/// The NVFP4 activations of a workspace.
pub open spec fn activations_of(shape: WorkspaceShape) -> Option<Nvfp4Activations> {
    if shape.nvfp4_columns > 0 {
        Some(
            Nvfp4Activations {
                rows: shape.tokens,
                columns: shape.nvfp4_columns,
                adapter_rank: shape.nvfp4_adapter_rank,
            },
        )
    } else {
        None
    }
}

fn activations(shape: &WorkspaceShape) -> (activations: Option<Nvfp4Activations>)
    ensures
        activations == activations_of(*shape),
{
    if shape.nvfp4_columns > 0 {
        Some(
            Nvfp4Activations {
                rows: shape.tokens,
                columns: shape.nvfp4_columns,
                adapter_rank: shape.nvfp4_adapter_rank,
            },
        )
    } else {
        None
    }
}

/// Whether the layers of a block have the shapes of the DiT and take BF16 rows, and their adapters and NVFP4
/// versions theirs.
pub open spec fn has_shapes(config: DitConfig, block: Block) -> bool {
    forall|part: Part|
        {
            let linear = #[trigger] block.linear_of(part);
            let (outputs, features) = workspace::part_shape(config, part);
            &&& linear.layer matches Some(layer) ==> layer.outputs == outputs && layer.features == features
                && layer.dtype != DType::F32
            &&& linear.adapter matches Some(adapter) ==> {
                &&& adapter.outputs == outputs
                &&& adapter.inputs == features
                &&& adapter.columns matches Some(columns) ==> adapter.rank <= columns
            }
            &&& linear.nvfp4 matches Some(weight) ==> {
                &&& weight.outputs == outputs
                &&& weight.features == features
                &&& weight.valid()
                &&& weight.columns > 0
            }
        }
}

proof fn layers_fit(dit: CudaDit, prefix: Seq<char>, block: Block, shape: WorkspaceShape)
    requires
        dit.describes(prefix, block),
        has_shapes(dit.config, block),
        is_adapter_rank(dit.adapters@, shape.adapter_rank),
        is_nvfp4_columns(dit.nvfp4@, shape.nvfp4_columns),
        is_nvfp4_rank(dit.nvfp4@, shape.nvfp4_adapter_rank),
    ensures
        workspace::block_fits(dit.config, shape, block),
{
    assert forall|part: Part| workspace::linear_fits(dit.config, shape, #[trigger] block.linear_of(part), part) by {
        let name = prefix + part.letters();
        let linear = block.linear_of(part);
        assert(linear == dit.linear_of(name));
        if linear.adapter is Some {
            assert(dit.adapters@.dom().contains(name));
        }
        if linear.nvfp4 is Some {
            assert(dit.nvfp4@.dom().contains(name));
        }
    }
    assert(block.linear_of(Part::Qkv) == block.qkv);
    assert(block.linear_of(Part::Gate) == block.gate);
    assert(block.linear_of(Part::Out) == block.out);
    assert(block.linear_of(Part::Fc1) == block.fc1);
    assert(block.linear_of(Part::Fc2) == block.fc2);
}

/// The workspace a call makes holds every row of its main blocks, their adapters and their NVFP4 layers.
pub proof fn a_call_makes_room_for_its_blocks(
    dit: CudaDit,
    layout: PackedLayout,
    call: RunCall,
    cached: Cached,
    forward: Forward,
    workspace: Workspace,
    layer: nat,
    block: Block,
    pending: bool,
)
    requires
        dit.valid(),
        layout.valid(),
        dit.is_run(layout, call, cached, forward),
        call.shard matches Some(shard) ==> shard.valid() && dit.shares_out(shard, layout.total(), call, Ok(())),
        workspace.sized(dit.config, forward.shape),
        layer < dit.config.layers,
        dit.describes(dit::block_prefix(layer), block),
        has_shapes(dit.config, block),
    ensures
        workspace::block_fits(dit.config, workspace.shape, block),
        workspace::call_fits(
            dit.config,
            workspace,
            block,
            forward.main_call(dit.config, call.shard is Some, pending),
        ),
{
    layers_fit(dit, dit::block_prefix(layer), block, forward.shape);
    let block_call = forward.main_call(dit.config, call.shard is Some, pending);
    let video = layout.of_kind(SegmentKind::Video);
    let v = choose|i: int| is_first(layout.segments@, SegmentKind::Video, i);
    assert(spans(layout.segments@)[v] == video.span());
    assert(spans(layout.segments@)[v].end <= layout.total());
    let name = CudaDit::part_name(layer, Part::Fc1);
    assert(block.linear_of(Part::Fc1) == dit.linear_of(name));
    if workspace::expands(block, block_call) {
        assert(!dit.fused()) by {
            if dit.fused() {
                assert(dit.int8_part(layer, Part::Fc1));
            }
        }
    }
}

/// The workspace a call makes holds every text row for the blocks of the refiner, where they fall to this
/// rank.
pub proof fn a_call_makes_room_for_its_text(
    dit: CudaDit,
    layout: PackedLayout,
    call: RunCall,
    cached: Cached,
    forward: Forward,
    workspace: Workspace,
    prefix: Seq<char>,
    block: Block,
)
    requires
        dit.valid(),
        dit.is_run(layout, call, cached, forward),
        forward.text != TextStates::Elsewhere,
        call.text_tokens <= forward.rows.size(),
        workspace.sized(dit.config, forward.shape),
        dit.describes(prefix, block),
        has_shapes(dit.config, block),
    ensures
        workspace::block_fits(dit.config, workspace.shape, block),
        workspace::call_fits(dit.config, workspace, block, forward.text_call(dit.config, call.text_tokens)),
{
    layers_fit(dit, prefix, block, forward.shape);
}

/// A call refines the text wherever it carries the text rows and no refined text is kept: the first call does, and the
/// first behind a LoRA.
pub proof fn text_that_is_not_kept_is_refined(
    dit: CudaDit,
    layout: PackedLayout,
    call: RunCall,
    cached: Cached,
    forward: Forward,
)
    requires
        !dit.text_kept,
        dit.is_run(layout, call, cached, forward),
    ensures
        forward.text == (if forward.rows.start > 0 {
            TextStates::Elsewhere
        } else {
            TextStates::Refined
        }),
{
}

/// One rank's rows of the velocity, before the video goes back into its own order.
#[derive(Clone, Debug)]
pub struct VelocityPart<T> {
    pub rows: Run,
    pub video: Vec<T>,
    pub audio: Vec<T>,
}

impl<T: Copy> VelocityPart<T> {
    /// The rank's values of the video, or of the audio.
    pub open spec fn values(self, projection: Projection) -> Seq<T> {
        match projection {
            Projection::Video => self.video@,
            Projection::Audio => self.audio@,
        }
    }

    fn take(&self, projection: Projection) -> (values: &Vec<T>)
        ensures
            values@ == self.values(projection),
    {
        match projection {
            Projection::Video => &self.video,
            Projection::Audio => &self.audio,
        }
    }
}

/// What gathering the first `count` parts comes to: the values so far and the rows they cover, or why there
/// are none.
pub open spec fn gathered<T: Copy>(
    segment: Run,
    width: int,
    parts: Seq<VelocityPart<T>>,
    projection: Projection,
    zero: T,
    count: int,
) -> Result<(Seq<T>, int), Seq<char>>
    decreases count,
{
    if count <= 0 {
        Ok((Seq::new((segment.size() * width) as nat, |i: int| zero), 0))
    } else {
        match gathered(segment, width, parts, projection, zero, count - 1) {
            Err(words) => Err(words),
            Ok((values, covered)) => match shard::overlap(segment, parts[count - 1].rows) {
                None => Ok((values, covered)),
                Some(held) => {
                    let rows = parts[count - 1].values(projection);
                    if rows.len() != held.size() * width {
                        Err(
                            "a part of "@ + text::decimal(rows.len()) + " values for "@ + text::decimal(
                                held.size() as nat,
                            ) + " rows"@,
                        )
                    } else {
                        Ok((placed(values, rows, (held.start - segment.start) * width), covered + held.size()))
                    }
                },
            },
        }
    }
}

/// `values` with `rows` from `place` on.
pub open spec fn placed<T>(values: Seq<T>, rows: Seq<T>, place: int) -> Seq<T> {
    Seq::new(
        values.len(),
        |i: int|
            if place <= i < place + rows.len() {
                rows[i - place]
            } else {
                values[i]
            },
    )
}

/// Whether two runs have a row of a segment in common.
pub open spec fn both_hold(segment: Run, one: Run, other: Run) -> bool {
    shard::overlap(segment, one) matches Some(held) && shard::overlap(held, other) is Some
}

/// Whether some row of a segment is in two parts.
pub open spec fn hold_a_row_twice<T: Copy>(segment: Run, parts: Seq<VelocityPart<T>>) -> bool {
    exists|i: int, j: int|
        0 <= i < j < parts.len() && both_hold(segment, (#[trigger] parts[i]).rows, (#[trigger] parts[j]).rows)
}

/// What the parts of one segment come to together: they may arrive in any order and must cover the sequence
/// once.
pub open spec fn assembled<T: Copy>(
    segment: Run,
    width: int,
    parts: Seq<VelocityPart<T>>,
    projection: Projection,
    zero: T,
) -> Result<Seq<T>, Seq<char>> {
    match gathered(segment, width, parts, projection, zero, parts.len() as int) {
        Err(words) => Err(words),
        Ok((values, covered)) => if covered != segment.size() {
            Err(
                "the parts cover "@ + text::decimal(covered as nat) + " of "@ + text::decimal(segment.size() as nat)
                    + " rows"@,
            )
        } else if hold_a_row_twice(segment, parts) {
            Err("the parts cover a row twice"@)
        } else {
            Ok(values)
        },
    }
}

/// Whether some row of a segment is in two parts.
fn overlaps<T: Copy>(segment: Run, parts: &Vec<VelocityPart<T>>) -> (answer: bool)
    ensures
        answer == hold_a_row_twice(segment, parts@),
{
    let count: usize = parts.len();
    for later in 0..count
        invariant
            count == parts@.len(),
            forall|i: int, j: int|
                0 <= i < j < later ==> !both_hold(segment, (#[trigger] parts@[i]).rows, (#[trigger] parts@[j]).rows),
    {
        for index in 0..later
            invariant
                count == parts@.len(),
                later < count,
                forall|i: int|
                    0 <= i < index ==> !both_hold(segment, (#[trigger] parts@[i]).rows, parts@[later as int].rows),
        {
            if let Some(held) = segment.within(parts[index].rows) {
                if held.within(parts[later].rows).is_some() {
                    assert(both_hold(segment, parts@[index as int].rows, parts@[later as int].rows));
                    return true;
                }
            }
        }
    }
    false
}

proof fn refusal_stays<T: Copy>(
    segment: Run,
    width: int,
    parts: Seq<VelocityPart<T>>,
    projection: Projection,
    zero: T,
    count: int,
    all: int,
)
    requires
        0 <= count <= all,
        gathered(segment, width, parts, projection, zero, count) is Err,
    ensures
        gathered(segment, width, parts, projection, zero, all) == gathered(
            segment,
            width,
            parts,
            projection,
            zero,
            count,
        ),
    decreases all,
{
    if count < all {
        refusal_stays(segment, width, parts, projection, zero, count, all - 1);
    }
}

/// Puts the parts of one segment of a shared-out step back together.
fn gather<T: Copy>(
    segment: Run,
    width: usize,
    parts: &Vec<VelocityPart<T>>,
    projection: Projection,
    zero: T,
) -> (values: Result<Vec<T>, Error>)
    requires
        segment.start <= segment.end,
        segment.size() * width <= usize::MAX,
        parts@.len() * segment.size() <= usize::MAX,
    ensures
        match assembled(segment, width as int, parts@, projection, zero) {
            Ok(expected) => values matches Ok(values) && values@ == expected,
            Err(words) => values matches Err(error) && error.says(words),
        },
{
    let rows: usize = segment.len();
    let mut values: Vec<T> = Vec::new();
    for place in 0..rows * width
        invariant
            values@.len() == place,
            forall|i: int| 0 <= i < place ==> values@[i] == zero,
    {
        values.push(zero);
    }
    assert(values@ =~= Seq::new((segment.size() * width) as nat, |i: int| zero));
    let mut covered: usize = 0;
    let count: usize = parts.len();
    for index in 0..count
        invariant
            count == parts@.len(),
            rows == segment.size(),
            segment.start <= segment.end,
            rows * width <= usize::MAX,
            count * rows <= usize::MAX,
            values@.len() == rows * width,
            covered <= index * rows,
            gathered(segment, width as int, parts@, projection, zero, index as int) == Ok::<
                (Seq<T>, int),
                Seq<char>,
            >((values@, covered as int)),
    {
        if let Some(held) = segment.within(parts[index].rows) {
            let taken = parts[index].take(projection);
            let size: usize = taken.len();
            let held_rows: usize = held.len();
            proof {
                arithmetic::products_grow(held_rows as int, width as int, rows as int, width as int);
                arithmetic::products_grow(
                    (held.start - segment.start) + held_rows,
                    width as int,
                    rows as int,
                    width as int,
                );
                arithmetic::products_grow(
                    held.start - segment.start,
                    width as int,
                    (held.start - segment.start) + held_rows,
                    width as int,
                );
                assert((held.start - segment.start) * width + held_rows * width == ((held.start - segment.start)
                    + held_rows) * width) by (nonlinear_arith);
                arithmetic::products_grow(index + 1, rows as int, count as int, rows as int);
                assert((index + 1) * rows == index * rows + rows) by (nonlinear_arith);
            }
            if size != held_rows * width {
                let mut message = String::from_str("a part of ");
                text::push_size(&mut message, size);
                message.append(" values for ");
                text::push_size(&mut message, held_rows);
                message.append(" rows");
                proof {
                    refusal_stays(segment, width as int, parts@, projection, zero, index + 1, count as int);
                }
                return Err(Error::Model(message));
            }
            let first: usize = (held.start - segment.start) * width;
            let ghost before = values@;
            for place in 0..size
                invariant
                    size == taken@.len(),
                    first + size <= before.len(),
                    before.len() == rows * width,
                    rows * width <= usize::MAX,
                    values@.len() == before.len(),
                    forall|i: int|
                        0 <= i < values@.len() ==> (#[trigger] values@[i]) == (if first <= i < first + place {
                            taken@[i - first]
                        } else {
                            before[i]
                        }),
            {
                values[first + place] = taken[place];
            }
            assert(values@ =~= placed(before, taken@, first as int));
            covered = covered + held_rows;
        } else {
            proof {
                arithmetic::products_grow(index as int, rows as int, index + 1, rows as int);
            }
        }
    }
    if covered != rows {
        let mut message = String::from_str("the parts cover ");
        text::push_size(&mut message, covered);
        message.append(" of ");
        text::push_size(&mut message, rows);
        message.append(" rows");
        return Err(Error::Model(message));
    }
    if overlaps(segment, parts) {
        return Err(Error::Model(String::from_str("the parts cover a row twice")));
    }
    Ok(values)
}

/// The velocities of a whole step, the rows of the video in the order the blocks ran them.
pub struct Velocity<T> {
    pub video: Vec<T>,
    pub audio: Vec<T>,
    /// Whether the video goes back from cube order.
    pub reordered: bool,
}

impl CudaDit {
    /// Puts the parts of a shared-out step back together, which only the rank that answers to the caller needs
    /// to do.
    pub fn assemble_velocity<T: Copy>(
        &self,
        layout: &PackedLayout,
        sparse: Option<SparseAttention>,
        parts: &Vec<VelocityPart<T>>,
        zero: T,
    ) -> (velocity: Result<Velocity<T>, Error>)
        requires
            layout.valid(),
            layout.total() * self.config.video_patch_features <= usize::MAX,
            layout.total() * self.config.audio_channels <= usize::MAX,
            parts@.len() * layout.total() <= usize::MAX,
        ensures
            ({
                let video = assembled(
                    layout.of_kind(SegmentKind::Video).span(),
                    self.config.video_patch_features as int,
                    parts@,
                    Projection::Video,
                    zero,
                );
                let audio = assembled(
                    layout.of_kind(SegmentKind::Audio).span(),
                    self.config.audio_channels as int,
                    parts@,
                    Projection::Audio,
                    zero,
                );
                match (video, audio) {
                    (Err(words), _) => velocity matches Err(error) && error.says(words),
                    (Ok(_), Err(words)) => velocity matches Err(error) && error.says(words),
                    (Ok(video), Ok(audio)) => {
                        &&& velocity matches Ok(velocity)
                        &&& velocity.video@ == video
                        &&& velocity.audio@ == audio
                        &&& velocity.reordered == (method_of(sparse, layout.total()) == Some(Sparse::Vsa))
                    },
                }
            }),
    {
        let tokens: usize = layout.len();
        let video = layout.segment(SegmentKind::Video).run();
        let audio = layout.segment(SegmentKind::Audio).run();
        proof {
            let a = choose|i: int| is_first(layout.segments@, SegmentKind::Audio, i);
            let v = choose|i: int| is_first(layout.segments@, SegmentKind::Video, i);
            assert(spans(layout.segments@)[a] == audio);
            assert(spans(layout.segments@)[v] == video);
            arithmetic::products_grow(
                video.size(),
                self.config.video_patch_features as int,
                tokens as int,
                self.config.video_patch_features as int,
            );
            arithmetic::products_grow(audio.size(), self.config.audio_channels as int, tokens as int, self.config.audio_channels as int);
            arithmetic::products_grow(parts@.len() as int, video.size(), parts@.len() as int, tokens as int);
            arithmetic::products_grow(parts@.len() as int, audio.size(), parts@.len() as int, tokens as int);
        }
        let video = gather(video, self.config.video_patch_features, parts, Projection::Video, zero)?;
        let audio = gather(audio, self.config.audio_channels, parts, Projection::Audio, zero)?;
        let reordered = match sparse_method(sparse, tokens) {
            Some(Sparse::Vsa) => true,
            _ => false,
        };
        Ok(Velocity { video, audio, reordered })
    }
}

/// Whether the parts are the ranks' rows of a whole segment.
pub open spec fn are_parts_of<T: Copy>(
    parts: Seq<VelocityPart<T>>,
    runs: Seq<Run>,
    segment: Run,
    width: int,
    projection: Projection,
    whole: Seq<T>,
) -> bool {
    &&& parts.len() == runs.len()
    &&& forall|k: int|
        0 <= k < parts.len() ==> {
            &&& (#[trigger] parts[k]).rows == runs[k]
            &&& shard::overlap(segment, runs[k]) matches Some(held) ==> parts[k].values(projection) == whole.subrange(
                (held.start - segment.start) * width,
                (held.end - segment.start) * width,
            )
        }
}

/// How many rows of a segment lie in the first `count` runs.
spec fn rows_within(segment: Run, runs: Seq<Run>, count: int) -> int
    decreases count,
{
    if count <= 0 {
        0
    } else {
        rows_within(segment, runs, count - 1) + (match shard::overlap(segment, runs[count - 1]) {
            Some(held) => held.size(),
            None => 0,
        })
    }
}

proof fn runs_reach(segment: Run, runs: Seq<Run>, total: int, count: int)
    requires
        shard::is_partition(runs, total),
        segment.start <= segment.end <= total,
        0 < count <= runs.len(),
    ensures
        rows_within(segment, runs, count) == arithmetic::max(
            arithmetic::min(segment.end as int, runs[count - 1].end as int) - segment.start,
            0,
        ),
    decreases count,
{
    if count > 1 {
        runs_reach(segment, runs, total, count - 1);
        assert(runs[count - 1].start == runs[count - 2].end);
    } else {
        assert(rows_within(segment, runs, 0) == 0);
    }
    assert(runs[count - 1].start <= runs[count - 1].end);
}

proof fn an_overlap_follows(segment: Run, runs: Seq<Run>, total: int, count: int)
    requires
        shard::is_partition(runs, total),
        segment.start <= segment.end <= total,
        0 < count <= runs.len(),
    ensures
        shard::overlap(segment, runs[count - 1]) matches Some(held) ==> {
            &&& segment.start <= held.start <= held.end <= segment.end
            &&& held.start - segment.start == rows_within(segment, runs, count - 1)
            &&& held.end - segment.start == rows_within(segment, runs, count)
        },
{
    if count > 1 {
        runs_reach(segment, runs, total, count - 1);
        assert(runs[count - 1].start == runs[count - 2].end);
    } else {
        assert(rows_within(segment, runs, 0) == 0);
    }
    runs_reach(segment, runs, total, count);
}

proof fn a_part_takes_its_place<T>(values: Seq<T>, taken: Seq<T>, whole: Seq<T>, first: int, last: int)
    requires
        0 <= first <= last <= whole.len(),
        values.len() == whole.len(),
        taken == whole.subrange(first, last),
        forall|i: int| 0 <= i < first ==> values[i] == whole[i],
    ensures
        placed(values, taken, first).len() == whole.len(),
        forall|i: int| 0 <= i < last ==> placed(values, taken, first)[i] == whole[i],
{
    assert forall|i: int| 0 <= i < last implies placed(values, taken, first)[i] == whole[i] by {
        if i < first {
            assert(values[i] == whole[i]);
        } else {
            assert(taken[i - first] == whole[i]);
        }
    }
}

proof fn parts_gather<T: Copy>(
    parts: Seq<VelocityPart<T>>,
    runs: Seq<Run>,
    total: int,
    segment: Run,
    width: int,
    projection: Projection,
    zero: T,
    whole: Seq<T>,
    count: int,
)
    requires
        shard::is_partition(runs, total),
        segment.start <= segment.end <= total,
        width >= 0,
        whole.len() == segment.size() * width,
        are_parts_of(parts, runs, segment, width, projection, whole),
        0 < count <= runs.len(),
    ensures
        gathered(segment, width, parts, projection, zero, count) matches Ok((values, covered)) && {
            let reached = rows_within(segment, runs, count);
            &&& covered == reached
            &&& values.len() == whole.len()
            &&& forall|i: int| 0 <= i < reached * width && i < whole.len() ==> values[i] == whole[i]
        },
    decreases count,
{
    if count > 1 {
        parts_gather(parts, runs, total, segment, width, projection, zero, whole, count - 1);
    }
    assert(rows_within(segment, runs, 0) == 0);
    let (values, covered) = gathered(segment, width, parts, projection, zero, count - 1)->Ok_0;
    assert(parts[count - 1].rows == runs[count - 1]);
    an_overlap_follows(segment, runs, total, count);
    if let Some(held) = shard::overlap(segment, runs[count - 1]) {
        let (first, last, rows) = (held.start - segment.start, held.end - segment.start, segment.size());
        assert(0 <= first * width <= last * width <= rows * width && last * width - first * width == (last - first)
            * width) by (nonlinear_arith)
            requires
                0 <= first <= last <= rows,
                width >= 0,
        ;
        a_part_takes_its_place(values, parts[count - 1].values(projection), whole, first * width, last * width);
    }
}

proof fn runs_follow(runs: Seq<Run>, total: int, i: int, j: int)
    requires
        shard::is_partition(runs, total),
        0 <= i < j < runs.len(),
    ensures
        runs[i].end <= runs[j].start,
    decreases j - i,
{
    assert(runs[j].start == runs[j - 1].end);
    if i < j - 1 {
        runs_follow(runs, total, i, j - 1);
        assert(runs[j - 1].start <= runs[j - 1].end);
    }
}

proof fn a_partition_holds_no_row_twice<T: Copy>(
    parts: Seq<VelocityPart<T>>,
    runs: Seq<Run>,
    total: int,
    segment: Run,
)
    requires
        shard::is_partition(runs, total),
        parts.len() == runs.len(),
        forall|k: int| 0 <= k < parts.len() ==> (#[trigger] parts[k]).rows == runs[k],
    ensures
        !hold_a_row_twice(segment, parts),
{
    assert forall|i: int, j: int| 0 <= i < j < parts.len() implies !both_hold(
        segment,
        (#[trigger] parts[i]).rows,
        (#[trigger] parts[j]).rows,
    ) by {
        runs_follow(runs, total, i, j);
    }
}

/// The parts of ranks whose rows are all rows come back together to the whole they are of.
pub proof fn parts_come_back_together<T: Copy>(
    parts: Seq<VelocityPart<T>>,
    runs: Seq<Run>,
    total: int,
    segment: Run,
    width: int,
    projection: Projection,
    zero: T,
    whole: Seq<T>,
)
    requires
        shard::is_partition(runs, total),
        segment.start <= segment.end <= total,
        width >= 0,
        whole.len() == segment.size() * width,
        are_parts_of(parts, runs, segment, width, projection, whole),
    ensures
        assembled(segment, width, parts, projection, zero) == Ok::<Seq<T>, Seq<char>>(whole),
{
    a_partition_holds_no_row_twice(parts, runs, total, segment);
    parts_gather(parts, runs, total, segment, width, projection, zero, whole, runs.len() as int);
    runs_reach(segment, runs, total, runs.len() as int);
    let values = assembled(segment, width, parts, projection, zero)->Ok_0;
    assert(values =~= whole);
}

} // verus!
