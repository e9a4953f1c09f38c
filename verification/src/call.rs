//! The launches of one call of the DiT, in their order: the text, the patches, the blocks and the last layer.
use crate::arithmetic;
use crate::dit::CudaDit;
use crate::forward;
use crate::forward::{Cached, Embed, Forward, LoopStep, PackedLayout, Projection, RunCall, Segment, TextStates};
use crate::shard::Run;
use crate::workspace::{DitConfig, Workspace};
use vstd::prelude::*;

verus! {

/// One launch of a call. Offsets are in bytes.
#[derive(Clone, Copy, Debug, PartialEq, Eq, Structural)]
pub enum CallStep {
    /// Copies the text states a call before refined into the residual stream.
    CopyText { bytes: usize },
    /// Projects the text features into the normalized rows.
    ProjectText { rows: usize },
    /// Takes the projected text into the residual stream in single precision.
    WidenText { count: usize },
    /// Runs a block of the text refiner.
    RefineText { layer: usize },
    /// Normalizes the text rows of the residual stream in place.
    NormalizeText { rows: usize },
    /// Keeps the refined text states for the calls to come.
    KeepText { bytes: usize },
    /// Projects patches into the residual stream.
    Embed { embed: Embed, offset: usize },
    /// One action of the block loop.
    Loop { step: LoopStep },
    /// Fills the modulation table of the last layer.
    ModulateLast,
    /// Normalizes the residual stream into the rows the last layer projects.
    NormalizeLast { rows: usize },
    /// Projects the rows of a segment to its velocity.
    Velocity { projection: Projection, offset: usize, rows: usize, width: usize },
}

impl Projection {
    /// The layer that projects patches into the residual stream.
    pub fn patch_layer(self) -> (name: &'static str)
        ensures
            name@ == (match self {
                Projection::Audio => "audio_patch_proj"@,
                Projection::Video => "video_patch_proj"@,
            }),
    {
        match self {
            Projection::Audio => "audio_patch_proj",
            Projection::Video => "video_patch_proj",
        }
    }

    /// The layer that projects the residual stream to a velocity.
    pub fn velocity_layer(self) -> (name: &'static str)
        ensures
            name@ == (match self {
                Projection::Audio => "final_layer.audio_out"@,
                Projection::Video => "final_layer.video_out"@,
            }),
    {
        match self {
            Projection::Audio => "final_layer.audio_out",
            Projection::Video => "final_layer.video_out",
        }
    }
}

/// What the text rows take: nothing on a rank without them, a copy where they are known, and else the blocks of the
/// refiner between a projection and a norm.
pub open spec fn text_steps(text: TextStates, config: DitConfig, tokens: usize) -> Seq<CallStep> {
    let bytes = (tokens * config.hidden * 4) as usize;
    match text {
        TextStates::Elsewhere => Seq::empty(),
        TextStates::Copied => seq![CallStep::CopyText { bytes }],
        TextStates::Refined => seq![
            CallStep::ProjectText { rows: tokens },
            CallStep::WidenText { count: (tokens * config.hidden) as usize },
        ] + Seq::new(config.refiner_layers as nat, |layer: int| CallStep::RefineText { layer: layer as usize }) + seq![
            CallStep::NormalizeText { rows: tokens },
            CallStep::KeepText { bytes },
        ],
    }
}

/// Where patches enter the residual stream.
pub open spec fn embed_step(config: DitConfig, embed: Embed) -> CallStep {
    CallStep::Embed { embed, offset: (embed.row * config.hidden * 4) as usize }
}

/// How the velocity of a segment is projected, where any of its rows fall to the rank.
pub open spec fn velocity_steps(config: DitConfig, projection: Projection, part: Option<Embed>) -> Seq<CallStep> {
    match part {
        None => Seq::empty(),
        Some(part) => seq![
            CallStep::Velocity {
                projection,
                offset: (part.row * config.hidden * 4) as usize,
                rows: part.taken.size() as usize,
                width: match projection {
                    Projection::Audio => config.audio_channels,
                    Projection::Video => config.video_patch_features,
                },
            },
        ],
    }
}

impl Forward {
    /// The launches of the call.
    pub open spec fn launches(self, config: DitConfig, text_tokens: usize) -> Seq<CallStep> {
        text_steps(self.text, config, text_tokens) + self.embeds@.map_values(|embed: Embed| embed_step(config, embed))
            + self.blocks@.map_values(|step: LoopStep| CallStep::Loop { step }) + seq![
            CallStep::ModulateLast,
            CallStep::NormalizeLast { rows: self.rows.size() as usize },
        ] + velocity_steps(config, Projection::Video, self.video) + velocity_steps(config, Projection::Audio, self.audio)
    }

    /// Whether every part of a segment starts in the rank's rows.
    pub open spec fn starts_inside(self) -> bool {
        &&& forall|i: int| 0 <= i < self.embeds@.len() ==> (#[trigger] self.embeds@[i]).row <= self.rows.size()
        &&& self.video matches Some(part) ==> part.row <= self.rows.size()
        &&& self.audio matches Some(part) ==> part.row <= self.rows.size()
    }

    fn velocity(&self, config: &DitConfig, projection: Projection, part: &Option<Embed>, steps: &mut Vec<CallStep>)
        requires
            self.rows.size() * config.hidden * 4 <= usize::MAX,
            *part matches Some(part) ==> part.row <= self.rows.size(),
        ensures
            final(steps)@ == old(steps)@ + velocity_steps(*config, projection, *part),
    {
        if let Some(part) = part {
            proof {
                arithmetic::products_grow(part.row as int, config.hidden as int, self.rows.size(), config.hidden as int);
            }
            let width: usize = match projection {
                Projection::Audio => config.audio_channels,
                Projection::Video => config.video_patch_features,
            };
            let offset: usize = part.row * config.hidden * 4;
            steps.push(CallStep::Velocity { projection, offset, rows: part.taken.len(), width });
        }
        assert(steps@ =~= old(steps)@ + velocity_steps(*config, projection, *part));
    }

    /// The launches of the call.
    pub fn steps(&self, config: &DitConfig, text_tokens: usize) -> (steps: Vec<CallStep>)
        requires
            text_tokens * config.hidden * 4 <= usize::MAX,
            self.rows.size() * config.hidden * 4 <= usize::MAX,
            self.starts_inside(),
        ensures
            steps@ == self.launches(*config, text_tokens),
    {
        let mut steps: Vec<CallStep> = Vec::new();
        match self.text {
            TextStates::Elsewhere => {},
            TextStates::Copied => {
                steps.push(CallStep::CopyText { bytes: text_tokens * config.hidden * 4 });
            },
            TextStates::Refined => {
                steps.push(CallStep::ProjectText { rows: text_tokens });
                steps.push(CallStep::WidenText { count: text_tokens * config.hidden });
                let ghost before = steps@;
                let mut layer: usize = 0;
                while layer < config.refiner_layers
                    invariant
                        layer <= config.refiner_layers,
                        steps@ == before + Seq::new(layer as nat, |i: int| CallStep::RefineText { layer: i as usize }),
                    decreases config.refiner_layers - layer,
                {
                    steps.push(CallStep::RefineText { layer });
                    layer += 1;
                    assert(steps@ =~= before + Seq::new(layer as nat, |i: int| CallStep::RefineText { layer: i as usize }));
                }
                steps.push(CallStep::NormalizeText { rows: text_tokens });
                steps.push(CallStep::KeepText { bytes: text_tokens * config.hidden * 4 });
            },
        }
        assert(steps@ =~= text_steps(self.text, *config, text_tokens));
        let ghost texts = steps@;
        let ghost embeds = self.embeds@.map_values(|embed: Embed| embed_step(*config, embed));
        let mut at: usize = 0;
        while at < self.embeds.len()
            invariant
                at <= self.embeds@.len(),
                self.rows.size() * config.hidden * 4 <= usize::MAX,
                self.starts_inside(),
                embeds == self.embeds@.map_values(|embed: Embed| embed_step(*config, embed)),
                steps@ == texts + embeds.take(at as int),
            decreases self.embeds@.len() - at,
        {
            let embed = self.embeds[at];
            proof {
                arithmetic::products_grow(embed.row as int, config.hidden as int, self.rows.size(), config.hidden as int);
            }
            steps.push(CallStep::Embed { embed, offset: embed.row * config.hidden * 4 });
            at += 1;
            assert(steps@ =~= texts + embeds.take(at as int));
        }
        let ghost before = steps@;
        let ghost blocks = self.blocks@.map_values(|step: LoopStep| CallStep::Loop { step });
        let mut block: usize = 0;
        while block < self.blocks.len()
            invariant
                block <= self.blocks@.len(),
                blocks == self.blocks@.map_values(|step: LoopStep| CallStep::Loop { step }),
                steps@ == before + blocks.take(block as int),
            decreases self.blocks@.len() - block,
        {
            steps.push(CallStep::Loop { step: self.blocks[block] });
            block += 1;
            assert(steps@ =~= before + blocks.take(block as int));
        }
        steps.push(CallStep::ModulateLast);
        steps.push(CallStep::NormalizeLast { rows: self.rows.len() });
        assert(steps@ =~= texts + embeds + blocks + seq![
            CallStep::ModulateLast,
            CallStep::NormalizeLast { rows: self.rows.size() as usize },
        ]);
        self.velocity(config, Projection::Video, &self.video, &mut steps);
        self.velocity(config, Projection::Audio, &self.audio, &mut steps);
        steps
    }
}

/// Whether a launch stays in the buffers of a workspace and in the layers of the DiT.
pub open spec fn step_stays(config: DitConfig, workspace: Workspace, step: CallStep) -> bool {
    match step {
        CallStep::CopyText { bytes } | CallStep::KeepText { bytes } => bytes <= workspace.residual,
        CallStep::ProjectText { rows } => rows * config.hidden * 2 <= workspace.normalized,
        CallStep::WidenText { count } => count * 2 <= workspace.normalized && count * 4 <= workspace.residual,
        CallStep::RefineText { layer } => layer < config.refiner_layers,
        CallStep::NormalizeText { rows } => rows * config.hidden * 4 <= workspace.residual,
        CallStep::Embed { embed, offset } => offset + embed.taken.size() * config.hidden * 4 <= workspace.residual,
        CallStep::Loop { step } => step matches LoopStep::Block { layer, .. } ==> layer < config.layers,
        CallStep::ModulateLast => true,
        CallStep::NormalizeLast { rows } => rows * config.hidden * 4 <= workspace.residual && rows * config.hidden * 4
            <= workspace.projected,
        CallStep::Velocity { offset, rows, .. } => offset + rows * config.hidden * 4 <= workspace.projected,
    }
}

spec fn all_stay(config: DitConfig, workspace: Workspace, steps: Seq<CallStep>) -> bool {
    forall|i: int| 0 <= i < steps.len() ==> step_stays(config, workspace, #[trigger] steps[i])
}

proof fn both_stay(config: DitConfig, workspace: Workspace, one: Seq<CallStep>, other: Seq<CallStep>)
    requires
        all_stay(config, workspace, one),
        all_stay(config, workspace, other),
    ensures
        all_stay(config, workspace, one + other),
{
    assert forall|i: int| 0 <= i < (one + other).len() implies step_stays(
        config,
        workspace,
        #[trigger] (one + other)[i],
    ) by {
        if i < one.len() {
            assert((one + other)[i] == one[i]);
        } else {
            assert((one + other)[i] == other[i - one.len()]);
        }
    }
}

/// Whether the rows of a part lie in the rows of a rank.
pub open spec fn lies_inside(part: Embed, rows: Run) -> bool {
    part.taken.start <= part.taken.end && part.row + part.taken.size() <= rows.size()
}

proof fn a_part_lies_inside(segment: Segment, projection: Projection, rows: Run)
    requires
        rows.start <= rows.end,
    ensures
        forward::embed_of(segment, projection, rows) matches Some(part) ==> lies_inside(part, rows),
{
}

proof fn conditions_lie_inside(segments: Seq<Segment>, rows: Run, count: int)
    requires
        rows.start <= rows.end,
        count <= segments.len(),
    ensures
        forall|i: int|
            0 <= i < forward::condition_embeds(segments, rows, count).len() ==> lies_inside(
                #[trigger] forward::condition_embeds(segments, rows, count)[i],
                rows,
            ),
    decreases count,
{
    if count > 0 {
        conditions_lie_inside(segments, rows, count - 1);
        let last = segments[count - 1];
        if let Some(projection) = forward::condition_of(last.kind) {
            a_part_lies_inside(last, projection, rows);
        }
        let before = forward::condition_embeds(segments, rows, count - 1);
        let all = forward::condition_embeds(segments, rows, count);
        assert forall|i: int| 0 <= i < all.len() implies lies_inside(#[trigger] all[i], rows) by {
            if i < before.len() {
                assert(all[i] == before[i]);
            }
        }
    }
}

/// Every part of a segment that a rank embeds or projects lies in its rows.
pub proof fn every_part_lies_inside(dit: CudaDit, layout: PackedLayout, call: RunCall, cached: Cached, forward: Forward)
    requires
        forward.rows.start <= forward.rows.end,
        dit.is_run(layout, call, cached, forward),
    ensures
        forall|i: int| 0 <= i < forward.embeds@.len() ==> lies_inside(#[trigger] forward.embeds@[i], forward.rows),
        forward.video matches Some(part) ==> lies_inside(part, forward.rows),
        forward.audio matches Some(part) ==> lies_inside(part, forward.rows),
        forward.starts_inside(),
{
    let rows = forward.rows;
    a_part_lies_inside(layout.of_kind(forward::SegmentKind::Audio), Projection::Audio, rows);
    a_part_lies_inside(layout.of_kind(forward::SegmentKind::Video), Projection::Video, rows);
    conditions_lie_inside(layout.segments@, rows, layout.segments@.len() as int);
    assert forall|i: int| 0 <= i < forward.embeds@.len() implies lies_inside(#[trigger] forward.embeds@[i], rows) by {
        let list = forward::embeds_of(layout, rows);
        assert(forward.embeds@[i] == list[i]);
    }
}

proof fn a_part_stays(config: DitConfig, workspace: Workspace, part: Embed, rows: Run)
    requires
        lies_inside(part, rows),
        workspace.residual == rows.size() * config.hidden * 4,
        workspace.projected == rows.size() * config.hidden * 4,
        workspace.residual <= usize::MAX,
    ensures
        step_stays(config, workspace, embed_step(config, part)),
        all_stay(config, workspace, velocity_steps(config, Projection::Video, Some(part))),
        all_stay(config, workspace, velocity_steps(config, Projection::Audio, Some(part))),
{
    let (row, size, hidden) = (part.row as int, part.taken.size(), config.hidden as int);
    assert(row * hidden * 4 + size * hidden * 4 <= rows.size() * hidden * 4) by (nonlinear_arith)
        requires
            row + size <= rows.size(),
            hidden >= 0,
    ;
    assert(0 <= row * hidden && 0 <= size * hidden) by (nonlinear_arith)
        requires
            row >= 0,
            size >= 0,
            hidden >= 0,
    ;
}

proof fn the_text_stays(config: DitConfig, workspace: Workspace, text: TextStates, tokens: usize, rows: int)
    requires
        text != TextStates::Elsewhere ==> tokens <= rows,
        workspace.residual == rows * config.hidden * 4,
        workspace.normalized == rows * config.hidden * 2,
        0 <= rows,
        workspace.residual <= usize::MAX,
    ensures
        all_stay(config, workspace, text_steps(text, config, tokens)),
{
    if text != TextStates::Elsewhere {
        arithmetic::products_grow(tokens as int, config.hidden as int, rows, config.hidden as int);
        assert(0 <= tokens * config.hidden) by (nonlinear_arith);
    }
}

proof fn the_blocks_stay(config: DitConfig, workspace: Workspace, capture: Seq<usize>, sol: bool, count: int)
    requires
        count <= config.layers,
    ensures
        all_stay(
            config,
            workspace,
            forward::loop_of(capture, sol, count).map_values(|step: LoopStep| CallStep::Loop { step }),
        ),
    decreases count,
{
    if count > 0 {
        the_blocks_stay(config, workspace, capture, sol, count - 1);
        let wrap = |step: LoopStep| CallStep::Loop { step };
        let before = forward::loop_of(capture, sol, count - 1);
        let all = forward::loop_of(capture, sol, count);
        assert forall|i: int| 0 <= i < all.len() implies step_stays(config, workspace, #[trigger] all.map_values(wrap)[i]) by {
            if i < before.len() {
                assert(all.map_values(wrap)[i] == before.map_values(wrap)[i]);
            }
        }
    }
}

/// Every launch of a call stays in the workspace the call makes, on a rank that holds every text row if it holds any.
pub proof fn a_call_stays_in_its_workspace(
    dit: CudaDit,
    layout: PackedLayout,
    call: RunCall,
    cached: Cached,
    forward: Forward,
    workspace: Workspace,
)
    requires
        forward.rows.start <= forward.rows.end,
        dit.is_run(layout, call, cached, forward),
        forward.text != TextStates::Elsewhere ==> call.text_tokens <= forward.rows.size(),
        workspace.sized(dit.config, forward.shape),
    ensures
        forall|i: int|
            0 <= i < forward.launches(dit.config, call.text_tokens).len() ==> step_stays(
                dit.config,
                workspace,
                #[trigger] forward.launches(dit.config, call.text_tokens)[i],
            ),
{
    let config = dit.config;
    let rows = forward.rows.size();
    let texts = text_steps(forward.text, config, call.text_tokens);
    let embeds = forward.embeds@.map_values(|embed: Embed| embed_step(config, embed));
    let blocks = forward.blocks@.map_values(|step: LoopStep| CallStep::Loop { step });
    let last = seq![CallStep::ModulateLast, CallStep::NormalizeLast { rows: rows as usize }];
    let video = velocity_steps(config, Projection::Video, forward.video);
    let audio = velocity_steps(config, Projection::Audio, forward.audio);
    every_part_lies_inside(dit, layout, call, cached, forward);
    the_text_stays(config, workspace, forward.text, call.text_tokens, rows);
    assert forall|i: int| 0 <= i < embeds.len() implies step_stays(config, workspace, #[trigger] embeds[i]) by {
        a_part_stays(config, workspace, forward.embeds@[i], forward.rows);
    }
    let (capture, sol) = (call.capture@, forward.method == Some(crate::block::Sparse::Sol));
    the_blocks_stay(config, workspace, capture, sol, config.layers as int);
    assert forall|i: int| 0 <= i < blocks.len() implies step_stays(config, workspace, #[trigger] blocks[i]) by {
        let looped = forward::loop_of(capture, sol, config.layers as int).map_values(
            |step: LoopStep| CallStep::Loop { step },
        );
        if i < looped.len() {
            assert(blocks[i] == looped[i]);
        }
    }
    if let Some(part) = forward.video {
        a_part_stays(config, workspace, part, forward.rows);
    }
    if let Some(part) = forward.audio {
        a_part_stays(config, workspace, part, forward.rows);
    }
    both_stay(config, workspace, texts, embeds);
    both_stay(config, workspace, texts + embeds, blocks);
    both_stay(config, workspace, texts + embeds + blocks, last);
    both_stay(config, workspace, texts + embeds + blocks + last, video);
    both_stay(config, workspace, texts + embeds + blocks + last + video, audio);
}

} // verus!
