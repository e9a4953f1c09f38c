//! The activations of one tile of the video encoder, and the places from which its convolutions read them and to which
//! they write them.
use crate::video_encoder;
use crate::video_encoder::{Activation, Convolution, CudaVideoEncoder, Level, ResnetBlock, VideoStep, Which};
use vstd::prelude::*;

verus! {

/// What a tile holds at one time.
pub struct Slots<B> {
    /// What the blocks run on.
    pub hidden: Option<B>,
    /// What the first convolution of a block wrote.
    pub first: Option<B>,
    /// What the second convolution of a block adds onto.
    pub residual: Option<B>,
    /// The input of a convolution behind its group norm.
    pub normalized: Option<B>,
}

/// Whether a convolution reads what the first convolution of its block wrote.
pub open spec fn reads_first(which: Which) -> bool {
    which is Second || which is Quant
}

/// Whether a convolution writes what the second convolution of its block adds onto.
pub open spec fn writes_residual(which: Which) -> bool {
    which is Second || which is Shortcut || which is Quant
}

impl<B> Slots<B> {
    /// What a convolution reads.
    pub open spec fn read(self, which: Which) -> Option<B> {
        if self.normalized is Some {
            self.normalized
        } else if reads_first(which) {
            self.first
        } else {
            self.hidden
        }
    }

    /// What a convolution writes.
    pub open spec fn written(self, which: Which) -> Option<B> {
        if writes_residual(which) {
            self.residual
        } else {
            self.first
        }
    }

    /// What is held once a convolution has something to write.
    pub open spec fn with(self, which: Which, output: B) -> Slots<B> {
        if writes_residual(which) {
            Slots { residual: Some(output), ..self }
        } else {
            Slots { first: Some(output), ..self }
        }
    }

    /// What is held behind a convolution: the output of the input convolution, of a downsampling and of a block's second
    /// convolution is what the blocks run on next.
    pub open spec fn settled(self, which: Which) -> Slots<B> {
        match which {
            Which::Input | Which::Downsample { .. } => Slots { hidden: self.first, first: None, normalized: None, ..self },
            Which::Second { .. } => Slots { hidden: self.residual, first: None, residual: None, normalized: None },
            _ => Slots { normalized: None, ..self },
        }
    }

    /// What is given back behind a convolution, in the order of the slots.
    pub open spec fn given_back(self, which: Which) -> Seq<B> {
        let moved = which is Input || which is Downsample || which is Second;
        let one = |held: Option<B>, gone: bool|
            if gone && held is Some {
                seq![held->0]
            } else {
                Seq::empty()
            };
        one(self.hidden, moved) + one(self.first, which is Second) + one(self.normalized, true)
    }

    /// The slots of a tile that holds its pixels.
    pub fn new(pixels: B) -> (slots: Slots<B>)
        ensures
            slots == (Slots { hidden: Some(pixels), first: None, residual: None, normalized: None }),
    {
        Slots { hidden: Some(pixels), first: None, residual: None, normalized: None }
    }

    /// What a convolution reads.
    pub fn source(&self, which: Which) -> (held: Option<&B>)
        ensures
            match self.read(which) {
                Some(expected) => held matches Some(held) && *held == expected,
                None => held is None,
            },
    {
        if self.normalized.is_some() {
            return self.normalized.as_ref();
        }
        match which {
            Which::Second { .. } | Which::Quant => self.first.as_ref(),
            _ => self.hidden.as_ref(),
        }
    }

    /// What a convolution writes.
    pub fn target(&self, which: Which) -> (held: Option<&B>)
        ensures
            match self.written(which) {
                Some(expected) => held matches Some(held) && *held == expected,
                None => held is None,
            },
    {
        match which {
            Which::Second { .. } | Which::Shortcut { .. } | Which::Quant => self.residual.as_ref(),
            _ => self.first.as_ref(),
        }
    }

    /// Gives a convolution what it writes.
    pub fn make(&mut self, which: Which, output: B)
        ensures
            *final(self) == old(self).with(which, output),
    {
        match which {
            Which::Second { .. } | Which::Shortcut { .. } | Which::Quant => {
                self.residual = Some(output);
            },
            _ => {
                self.first = Some(output);
            },
        }
    }

    /// Puts what a convolution wrote in its place, and gives back what is read no more.
    pub fn done(&mut self, which: Which) -> (freed: Vec<B>)
        ensures
            *final(self) == old(self).settled(which),
            freed@ == old(self).given_back(which),
    {
        let mut freed: Vec<B> = Vec::new();
        let ghost before = *self;
        match which {
            Which::Input | Which::Downsample { .. } => {
                let first = self.first.take();
                let hidden = self.hidden.take();
                self.hidden = first;
                if let Some(hidden) = hidden {
                    freed.push(hidden);
                }
            },
            Which::Second { .. } => {
                let residual = self.residual.take();
                let hidden = self.hidden.take();
                self.hidden = residual;
                if let Some(hidden) = hidden {
                    freed.push(hidden);
                }
                if let Some(first) = self.first.take() {
                    freed.push(first);
                }
            },
            _ => {},
        }
        if let Some(normalized) = self.normalized.take() {
            freed.push(normalized);
        }
        assert(freed@ =~= before.given_back(which));
        freed
    }
}

/// What a tile holds behind a launch, unless the launch reads or writes another activation than its slots hold.
pub open spec fn after(slots: Slots<Activation>, step: VideoStep) -> Option<Slots<Activation>> {
    match step {
        VideoStep::Make { which, output } => if slots.written(which) is None {
            Some(slots.with(which, output))
        } else {
            None
        },
        VideoStep::Done { which } => Some(slots.settled(which)),
        VideoStep::Copy { input } => if slots.hidden == Some(input) && slots.residual is None {
            Some(Slots { residual: Some(input), ..slots })
        } else {
            None
        },
        VideoStep::GroupNorm { which, input } => if slots.normalized is None && slots.read(which) == Some(input) {
            Some(Slots { normalized: Some(input), ..slots })
        } else {
            None
        },
        VideoStep::Statistics { which, input } => if slots.read(which) == Some(input) {
            Some(slots)
        } else {
            None
        },
        VideoStep::Fused { which, input, .. } => if slots.read(which) == Some(input) && slots.written(which) is Some {
            Some(slots)
        } else {
            None
        },
        VideoStep::Columns { which, input, .. } => if slots.read(which) == Some(input) {
            Some(slots)
        } else {
            None
        },
        VideoStep::Pointwise { which, rows, .. } => if (slots.written(which) matches Some(output) && output.rows()
            == rows) && (slots.read(which) matches Some(input) && input.rows() == rows) {
            Some(slots)
        } else {
            None
        },
        VideoStep::Product { which, first, count, .. } => if slots.written(which) matches Some(output) && first + count
            <= output.rows() {
            Some(slots)
        } else {
            None
        },
    }
}

/// What a tile holds behind launches.
pub open spec fn run(slots: Slots<Activation>, steps: Seq<VideoStep>) -> Option<Slots<Activation>>
    decreases steps.len(),
{
    if steps.len() == 0 {
        Some(slots)
    } else {
        match run(slots, steps.drop_last()) {
            None => None,
            Some(held) => after(held, steps.last()),
        }
    }
}

proof fn runs_follow(slots: Slots<Activation>, one: Seq<VideoStep>, other: Seq<VideoStep>)
    ensures
        run(slots, one + other) == (match run(slots, one) {
            None => None,
            Some(held) => run(held, other),
        }),
    decreases other.len(),
{
    if other.len() == 0 {
        assert(one + other =~= one);
    } else {
        runs_follow(slots, one, other.drop_last());
        assert((one + other).drop_last() =~= one + other.drop_last());
    }
}

proof fn one_runs(slots: Slots<Activation>, step: VideoStep)
    ensures
        run(slots, seq![step]) == after(slots, step),
{
    reveal_with_fuel(run, 2);
    assert(seq![step].drop_last() =~= Seq::<VideoStep>::empty());
}

proof fn slices_run(
    slots: Slots<Activation>,
    which: Which,
    input: Activation,
    output: Activation,
    stride: usize,
    time_stride: usize,
    accumulate: bool,
    slice: int,
    rows: int,
    first: int,
)
    requires
        slots.read(which) == Some(input),
        slots.written(which) == Some(output),
        rows == output.rows(),
        0 <= first,
        rows <= usize::MAX,
    ensures
        run(slots, video_encoder::slices(which, input, stride, time_stride, accumulate, slice, rows, first)) == Some(slots),
    decreases rows - first,
{
    if first < rows && slice > 0 {
        let count = crate::arithmetic::min(slice, rows - first);
        slices_run(slots, which, input, output, stride, time_stride, accumulate, slice, rows, first + count);
        let columns = VideoStep::Columns {
            which,
            input,
            stride,
            time_stride,
            first: first as usize,
            count: count as usize,
        };
        let product = VideoStep::Product { which, first: first as usize, count: count as usize, accumulate };
        let rest = video_encoder::slices(which, input, stride, time_stride, accumulate, slice, rows, first + count);
        one_runs(slots, columns);
        one_runs(slots, product);
        runs_follow(slots, seq![columns], seq![product]);
        assert(seq![columns] + seq![product] =~= seq![columns, product]);
        runs_follow(slots, seq![columns, product], rest);
    }
}

proof fn passes_run(
    slots: Slots<Activation>,
    which: Which,
    convolution: Convolution,
    input: Activation,
    stride: usize,
    time_stride: usize,
    accumulate: Option<Activation>,
    normalize: bool,
    slice_bytes: usize,
)
    requires
        stride > 0,
        time_stride > 0,
        video_encoder::countable(input),
        slots.read(which) == Some(input),
        slots.written(which) matches Some(output) && output.rows() == video_encoder::convolved(
            convolution,
            input,
            stride,
            time_stride,
        ).rows(),
        convolution.kernel == 1 ==> stride == 1 && time_stride == 1,
    ensures
        video_encoder::passes_flow(
            which,
            convolution,
            input,
            stride,
            time_stride,
            accumulate,
            normalize,
            slice_bytes,
        ) matches Ok((steps, last)) ==> run(slots, steps) == Some(slots),
{
    reveal(video_encoder::passes_flow);
    let made = video_encoder::convolved(convolution, input, stride, time_stride);
    video_encoder::a_convolution_leaves_no_more_rows(convolution, input, stride, time_stride);
    let output = slots.written(which)->0;
    let adds = accumulate is Some;
    if let Ok((steps, last)) = video_encoder::passes_flow(
        which,
        convolution,
        input,
        stride,
        time_stride,
        accumulate,
        normalize,
        slice_bytes,
    ) {
        if video_encoder::fusing(convolution, input, stride, time_stride) {
            let fused = VideoStep::Fused { which, input, accumulate: adds, normalize };
            let statistics = VideoStep::Statistics { which, input };
            one_runs(slots, fused);
            one_runs(slots, statistics);
            runs_follow(slots, seq![statistics], seq![fused]);
        } else if convolution.kernel == 1 {
            one_runs(slots, VideoStep::Pointwise { which, rows: made.rows() as usize, accumulate: adds });
        } else {
            let slice = video_encoder::slice_rows(slice_bytes, convolution.columns);
            slices_run(slots, which, input, output, stride, time_stride, adds, slice, made.rows(), 0);
        }
    }
}

proof fn a_convolution_runs(
    slots: Slots<Activation>,
    which: Which,
    convolution: Convolution,
    input: Activation,
    stride: usize,
    time_stride: usize,
    accumulate: Option<Activation>,
    normalize: bool,
    slice_bytes: usize,
)
    requires
        stride > 0,
        time_stride > 0,
        video_encoder::countable(input),
        slots.read(which) == Some(input),
        slots.written(which) == accumulate,
        accumulate matches Some(output) ==> output.rows() == video_encoder::convolved(
            convolution,
            input,
            stride,
            time_stride,
        ).rows(),
        convolution.kernel == 1 ==> stride == 1 && time_stride == 1,
    ensures
        video_encoder::convolve_flow(
            which,
            convolution,
            input,
            stride,
            time_stride,
            accumulate,
            normalize,
            slice_bytes,
        ) matches Ok((steps, last)) ==> run(slots, steps) == Some(slots.with(which, last).settled(which)),
{
    reveal(video_encoder::convolve_flow);
    reveal(video_encoder::passes_flow);
    let flow = video_encoder::passes_flow(
        which,
        convolution,
        input,
        stride,
        time_stride,
        accumulate,
        normalize,
        slice_bytes,
    );
    if let Ok((passes, last)) = flow {
        let held = slots.with(which, last);
        let done = VideoStep::Done { which };
        passes_run(held, which, convolution, input, stride, time_stride, accumulate, normalize, slice_bytes);
        one_runs(held, done);
        runs_follow(held, passes, seq![done]);
        if accumulate is None {
            let make = VideoStep::Make { which, output: last };
            one_runs(slots, make);
            runs_follow(slots, seq![make], passes + seq![done]);
            assert(seq![make] + passes + seq![done] =~= seq![make] + (passes + seq![done]));
        } else {
            assert(held == slots);
            assert(Seq::<VideoStep>::empty() + passes + seq![done] =~= passes + seq![done]);
        }
    }
}

proof fn a_normalized_convolution_runs(
    slots: Slots<Activation>,
    which: Which,
    convolution: Convolution,
    input: Activation,
    accumulate: Option<Activation>,
    slice_bytes: usize,
)
    requires
        video_encoder::countable(input),
        slots.normalized is None,
        slots.read(which) == Some(input),
        slots.written(which) == accumulate,
        accumulate matches Some(output) ==> output.rows() == input.rows(),
    ensures
        video_encoder::normalized_flow(which, convolution, input, accumulate, slice_bytes) matches Ok((steps, last)) ==> run(
            slots,
            steps,
        ) == Some(slots.with(which, last).settled(which)),
{
    reveal(video_encoder::normalized_flow);
    let made = video_encoder::convolved(convolution, input, 1, 1);
    assert(made.rows() == input.rows());
    a_convolution_runs(slots, which, convolution, input, 1, 1, accumulate, true, slice_bytes);
    let held = Slots { normalized: Some(input), ..slots };
    a_convolution_runs(held, which, convolution, input, 1, 1, accumulate, false, slice_bytes);
    let norm = VideoStep::GroupNorm { which, input };
    one_runs(slots, norm);
    if let Ok((steps, last)) = video_encoder::convolve_flow(
        which,
        convolution,
        input,
        1,
        1,
        accumulate,
        false,
        slice_bytes,
    ) {
        runs_follow(slots, seq![norm], steps);
        assert(held.with(which, last).settled(which) == slots.with(which, last).settled(which));
    }
}

/// What a tile holds between its blocks.
spec fn between(hidden: Activation) -> Slots<Activation> {
    Slots { hidden: Some(hidden), first: None, residual: None, normalized: None }
}

proof fn a_block_runs(block: ResnetBlock, level: usize, index: usize, input: Activation, slice_bytes: usize)
    requires
        video_encoder::countable(input),
    ensures
        video_encoder::block_flow(block, level, index, input, slice_bytes) matches Ok((steps, last)) ==> run(
            between(input),
            steps,
        ) == Some(between(last)) && video_encoder::countable(last),
{
    reveal(video_encoder::block_flow);
    let slots = between(input);
    let first = Which::First { level, block: index };
    let short = Which::Shortcut { level, block: index };
    let second = Which::Second { level, block: index };
    a_normalized_convolution_runs(slots, first, block.conv1, input, None, slice_bytes);
    if let Ok((one, hidden)) = video_encoder::normalized_flow(first, block.conv1, input, None, slice_bytes) {
        flows_make(first, block.conv1, input, slice_bytes);
        assert(hidden.rows() == input.rows() && video_encoder::countable(hidden));
        let held = Slots { first: Some(hidden), ..slots };
        assert(slots.with(first, hidden).settled(first) == held);
        if let Some(shortcut) = block.shortcut {
            a_convolution_runs(held, short, shortcut, input, 1, 1, None, false, slice_bytes);
        } else {
            one_runs(held, VideoStep::Copy { input });
        }
        if let Ok((two, residual)) = video_encoder::shortcut_flow(block, level, index, input, slice_bytes) {
            assert(residual.rows() == input.rows() && video_encoder::countable(residual)) by {
                reveal(video_encoder::convolve_flow);
                reveal(video_encoder::passes_flow);
            }
            let both = Slots { residual: Some(residual), ..held };
            assert(held.with(short, residual).settled(short) == both);
            assert(run(held, two) == Some(both));
            a_normalized_convolution_runs(both, second, block.conv2, hidden, Some(residual), slice_bytes);
            if let Ok((three, last)) = video_encoder::normalized_flow(
                second,
                block.conv2,
                hidden,
                Some(residual),
                slice_bytes,
            ) {
                assert(last == residual) by {
                    reveal(video_encoder::normalized_flow);
                    reveal(video_encoder::convolve_flow);
                    reveal(video_encoder::passes_flow);
                }
                assert(both.with(second, last).settled(second) == between(last));
                runs_follow(slots, one, two);
                runs_follow(slots, one + two, three);
            }
        }
    }
}

proof fn flows_make(which: Which, convolution: Convolution, input: Activation, slice_bytes: usize)
    requires
        video_encoder::countable(input),
    ensures
        video_encoder::normalized_flow(which, convolution, input, None, slice_bytes) matches Ok((steps, last)) ==> last
            == video_encoder::convolved(convolution, input, 1, 1) && last.rows() == input.rows() && video_encoder::countable(
            last,
        ),
{
    reveal(video_encoder::normalized_flow);
    reveal(video_encoder::convolve_flow);
    reveal(video_encoder::passes_flow);
    video_encoder::a_convolution_leaves_no_more_rows(convolution, input, 1, 1);
}

proof fn blocks_run(blocks: Seq<ResnetBlock>, level: usize, input: Activation, slice_bytes: usize, count: int)
    requires
        video_encoder::countable(input),
    ensures
        video_encoder::blocks_flow(blocks, level, input, slice_bytes, count) matches Ok((steps, last)) ==> run(
            between(input),
            steps,
        ) == Some(between(last)) && video_encoder::countable(last),
    decreases count,
{
    if count > 0 {
        blocks_run(blocks, level, input, slice_bytes, count - 1);
        if let Ok((before, middle)) = video_encoder::blocks_flow(blocks, level, input, slice_bytes, count - 1) {
            let index = (count - 1) as usize;
            a_block_runs(blocks[count - 1], level, index, middle, slice_bytes);
            if let Ok((steps, last)) = video_encoder::block_flow(blocks[count - 1], level, index, middle, slice_bytes) {
                runs_follow(between(input), before, steps);
            }
        }
    }
}

/// Whether the downsampling of a level has a kernel, as its stride needs.
pub open spec fn folds(level: Level) -> bool {
    level.downsample matches Some(convolution) ==> convolution.kernel != 1
}

proof fn a_level_runs(level: Level, index: usize, before: int, input: Activation, slice_bytes: usize)
    requires
        video_encoder::countable(input),
        folds(level),
    ensures
        video_encoder::level_flow(level, index, before, input, slice_bytes) matches Ok((steps, last)) ==> run(
            between(input),
            steps,
        ) == Some(between(last)) && video_encoder::countable(last),
{
    reveal(video_encoder::level_flow);
    blocks_run(level.blocks@, index, input, slice_bytes, level.blocks@.len() as int);
    let blocks = video_encoder::blocks_flow(level.blocks@, index, input, slice_bytes, level.blocks@.len() as int);
    if let Ok((steps, middle)) = blocks {
        if let Some(convolution) = level.downsample {
            let which = Which::Downsample { level: index };
            let stride = video_encoder::time_stride_of(before);
            a_convolution_runs(between(middle), which, convolution, middle, 2, stride, None, false, slice_bytes);
            video_encoder::a_convolution_is_countable(which, convolution, middle, 2, stride, None, false, slice_bytes);
            let flow = video_encoder::convolve_flow(which, convolution, middle, 2, stride, None, false, slice_bytes);
            if let Ok((rest, last)) = flow {
                assert(between(middle).with(which, last).settled(which) == between(last));
                runs_follow(between(input), steps, rest);
            }
        } else {
            assert(steps + Seq::<VideoStep>::empty() =~= steps);
        }
    }
}

proof fn levels_run(levels: Seq<Level>, input: Activation, slice_bytes: usize, count: int)
    requires
        video_encoder::countable(input),
        count <= levels.len(),
        forall|i: int| 0 <= i < levels.len() ==> folds(#[trigger] levels[i]),
    ensures
        video_encoder::levels_flow(levels, input, slice_bytes, count) matches Ok((steps, last)) ==> run(
            between(input),
            steps,
        ) == Some(between(last)) && video_encoder::countable(last),
    decreases count,
{
    if count > 0 {
        levels_run(levels, input, slice_bytes, count - 1);
        if let Ok((before, middle)) = video_encoder::levels_flow(levels, input, slice_bytes, count - 1) {
            let (level, index) = (levels[count - 1], (count - 1) as usize);
            let halved = video_encoder::downsamples(levels, count - 1);
            a_level_runs(level, index, halved, middle, slice_bytes);
            if let Ok((steps, last)) = video_encoder::level_flow(level, index, halved, middle, slice_bytes) {
                runs_follow(between(input), before, steps);
            }
        }
    }
}

/// Every launch of a tile reads the activation that the launches before it left where it reads, has one to write, and
/// the last of them leaves the moments.
pub proof fn every_launch_finds_its_activations(encoder: CudaVideoEncoder, input: Activation, slice_bytes: usize)
    requires
        video_encoder::countable(input),
        forall|i: int| 0 <= i < encoder.levels@.len() ==> folds(#[trigger] encoder.levels@[i]),
        video_encoder::tile_flow(encoder, input, slice_bytes) is Ok,
    ensures
        ({
            let (steps, moments) = video_encoder::tile_flow(encoder, input, slice_bytes)->Ok_0;
            let pixels = Slots { hidden: Some(input), first: None, residual: None, normalized: None };
            run(pixels, steps) matches Some(slots) && slots.residual == Some(moments)
        }),
{
    let (start, levels) = (between(input), encoder.levels@.len() as int);
    a_convolution_runs(start, Which::Input, encoder.input, input, 1, 1, None, false, slice_bytes);
    video_encoder::a_convolution_is_countable(Which::Input, encoder.input, input, 1, 1, None, false, slice_bytes);
    let one = video_encoder::convolve_flow(Which::Input, encoder.input, input, 1, 1, None, false, slice_bytes);
    let (first_steps, first) = one->Ok_0;
    assert(start.with(Which::Input, first).settled(Which::Input) == between(first));
    levels_run(encoder.levels@, first, slice_bytes, levels);
    let (level_steps, hidden) = video_encoder::levels_flow(encoder.levels@, first, slice_bytes, levels)->Ok_0;
    runs_follow(start, first_steps, level_steps);
    a_normalized_convolution_runs(between(hidden), Which::Output, encoder.output, hidden, None, slice_bytes);
    flows_make(Which::Output, encoder.output, hidden, slice_bytes);
    let end = video_encoder::normalized_flow(Which::Output, encoder.output, hidden, None, slice_bytes);
    let (output_steps, output) = end->Ok_0;
    let held = Slots { first: Some(output), ..between(hidden) };
    assert(between(hidden).with(Which::Output, output).settled(Which::Output) == held);
    a_convolution_runs(held, Which::Quant, encoder.quant, output, 1, 1, None, false, slice_bytes);
    let last = video_encoder::convolve_flow(Which::Quant, encoder.quant, output, 1, 1, None, false, slice_bytes);
    let (quant_steps, moments) = last->Ok_0;
    runs_follow(between(hidden), output_steps, quant_steps);
    runs_follow(start, first_steps + level_steps, output_steps + quant_steps);
}

} // verus!
