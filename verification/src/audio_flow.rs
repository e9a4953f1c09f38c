//! What the launches of a latent sound compute: the signals of the audio decoder as values, and the decoder as a
//! formula.
use crate::audio_vae;
use crate::audio_vae::{AmpParts, AudioActivation, AudioLayer, AudioStep, Convolution, DecoderParts, Signal, StageParts};
use crate::value::Value;
use vstd::prelude::*;

verus! {

/// The operations of the decoder's kernels.
#[allow(inconsistent_fields)]
pub enum AudioOp {
    /// The columns a convolution walks over.
    Columns { layer: AudioLayer, dilation: usize, padding: usize, length: usize },
    Product { layer: AudioLayer, rows: usize },
    /// The products of a transposed convolution, gathered onto its outputs.
    Gather { stage: usize, rate: usize, padding: usize, length: usize, output_length: usize },
    Activate { activation: AudioActivation, length: usize },
    /// So many values.
    Values { count: usize },
    Divided { by: usize },
    Clamp { count: usize },
}

/// What a signal holds.
pub type Held = Value<AudioOp>;

/// What the signals of a decode call hold.
pub struct Sound {
    pub held: Map<Signal, Held>,
}

impl Sound {
    pub open spec fn at(self, signal: Signal) -> Held {
        self.held[signal]
    }

    pub open spec fn with(self, signal: Signal, value: Held) -> Sound {
        Sound { held: self.held.insert(signal, value) }
    }

    /// What the signals hold behind a launch.
    pub open spec fn after(self, step: AudioStep) -> Sound {
        match step {
            AudioStep::Columns { layer, dilation, padding, input, length } => self.with(
                Signal::Columns,
                Value::of(AudioOp::Columns { layer, dilation, padding, length }, self.at(input)),
            ),
            AudioStep::Product { layer, input, output, rows } => self.with(
                output,
                Value::of(AudioOp::Product { layer, rows }, self.at(input)),
            ),
            AudioStep::Gather { stage, rate, padding, length, output_length } => self.with(
                Signal::Upsampled,
                Value::of(AudioOp::Gather { stage, rate, padding, length, output_length }, self.at(Signal::Columns)),
            ),
            AudioStep::Activate { activation, input, output, length } => self.with(
                output,
                Value::of(AudioOp::Activate { activation, length }, self.at(input)),
            ),
            AudioStep::Add { output, first, second, count, divisor } => {
                let sum = self.at(first).plus(self.at(second));
                self.with(
                    output,
                    Value::of(
                        AudioOp::Values { count },
                        if divisor == 1 {
                            sum
                        } else {
                            Value::of(AudioOp::Divided { by: divisor }, sum)
                        },
                    ),
                )
            },
            AudioStep::Clamp { count } => self.with(
                Signal::Output,
                Value::of(AudioOp::Clamp { count }, self.at(Signal::Output)),
            ),
        }
    }

    /// What the signals hold behind launches.
    pub open spec fn behind(self, steps: Seq<AudioStep>) -> Sound
        decreases steps.len(),
    {
        if steps.len() == 0 {
            self
        } else {
            self.behind(steps.drop_last()).after(steps.last())
        }
    }
}

/// The sum of two signals of `count` values.
pub open spec fn sum_of(count: usize, one: Held, other: Held) -> Held {
    Value::of(AudioOp::Values { count }, one.plus(other))
}

/// A convolution that keeps the length.
pub open spec fn convolved(
    layer: AudioLayer,
    convolution: Convolution,
    dilation: int,
    sequences: int,
    length: int,
    value: Held,
) -> Held {
    let columns = if convolution.kernel == 1 {
        value
    } else {
        Value::of(
            AudioOp::Columns {
                layer,
                dilation: dilation as usize,
                padding: (dilation * (convolution.kernel - 1) / 2) as usize,
                length: length as usize,
            },
            value,
        )
    };
    Value::of(AudioOp::Product { layer, rows: (sequences * length) as usize }, columns)
}

/// A residual unit on a signal: a dilated and a plain convolution, each behind an activation, on top of the signal.
pub open spec fn unit_of(
    parts: AmpParts,
    stage: int,
    block: int,
    unit: int,
    sequences: int,
    length: int,
    channels: int,
    value: Held,
) -> Held {
    let (s, b, u) = (stage as usize, block as usize, unit as usize);
    let first = Value::of(
        AudioOp::Activate {
            activation: AudioActivation::Block { stage: s, block: b, index: (2 * unit) as usize },
            length: length as usize,
        },
        value,
    );
    let dilated = convolved(
        AudioLayer::Dilated { stage: s, block: b, unit: u },
        parts.dilated[unit],
        2 * unit + 1,
        sequences,
        length,
        first,
    );
    let second = Value::of(
        AudioOp::Activate {
            activation: AudioActivation::Block { stage: s, block: b, index: (2 * unit + 1) as usize },
            length: length as usize,
        },
        dilated,
    );
    let plain = convolved(
        AudioLayer::Plain { stage: s, block: b, unit: u },
        parts.plain[unit],
        1,
        sequences,
        length,
        second,
    );
    sum_of((sequences * length * channels) as usize, plain, value)
}

/// The first `units` residual units of a block on a signal, one on what the other left.
pub open spec fn units_of(
    parts: AmpParts,
    stage: int,
    block: int,
    sequences: int,
    length: int,
    channels: int,
    units: int,
    value: Held,
) -> Held
    decreases units,
{
    if units <= 0 {
        value
    } else {
        unit_of(
            parts,
            stage,
            block,
            units - 1,
            sequences,
            length,
            channels,
            units_of(parts, stage, block, sequences, length, channels, units - 1, value),
        )
    }
}

/// A block of a stage on a signal.
pub open spec fn block_of(
    stage: StageParts,
    index: int,
    block: int,
    sequences: int,
    length: int,
    value: Held,
) -> Held {
    units_of(stage.blocks[block], index, block, sequences, length, stage.upsample.outputs as int, 3, value)
}

/// What a stage has upsampled of a signal of `length` samples.
pub open spec fn upsampled(index: int, sequences: int, length: int, value: Held) -> Held {
    let (rate, kernel) = (audio_vae::rate_of(index), audio_vae::kernel_of(index));
    Value::of(
        AudioOp::Gather {
            stage: index as usize,
            rate,
            padding: ((kernel - rate) / 2) as usize,
            length: length as usize,
            output_length: (length * rate) as usize,
        },
        Value::of(
            AudioOp::Product {
                layer: AudioLayer::Upsample { stage: index as usize },
                rows: (sequences * length) as usize,
            },
            value,
        ),
    )
}

/// A stage on a signal: the average of its three blocks, each on what the stage has upsampled.
pub open spec fn stage_of(stage: StageParts, index: int, sequences: int, frames: int, value: Held) -> Held {
    let length = audio_vae::length_after(frames, index + 1);
    let count = (sequences * length * stage.upsample.outputs) as usize;
    let wide = upsampled(index, sequences, audio_vae::length_after(frames, index), value);
    let first = block_of(stage, index, 0, sequences, length, wide);
    let second = block_of(stage, index, 1, sequences, length, wide);
    let third = block_of(stage, index, 2, sequences, length, wide);
    Value::of(
        AudioOp::Values { count },
        Value::of(AudioOp::Divided { by: 3 }, sum_of(count, first, second).plus(third)),
    )
}

/// The signal behind the first `count` stages.
pub open spec fn signal_of(stages: Seq<StageParts>, sequences: int, frames: int, count: int, value: Held) -> Held
    decreases count,
{
    if count <= 0 {
        value
    } else {
        stage_of(
            stages[count - 1],
            count - 1,
            sequences,
            frames,
            signal_of(stages, sequences, frames, count - 1, value),
        )
    }
}

/// The waveform of a latent.
pub open spec fn waveform(parts: DecoderParts, sequences: int, frames: int, latent: Held) -> Held {
    let length = audio_vae::length_after(frames, 7);
    let projected = convolved(AudioLayer::InputProjection, parts.input_projection, 1, sequences, frames, latent);
    let begun = convolved(AudioLayer::Pre, parts.pre, 1, sequences, frames, projected);
    let signal = signal_of(parts.stages, sequences, frames, 7, begun);
    let active = Value::of(
        AudioOp::Activate { activation: AudioActivation::Post, length: length as usize },
        signal,
    );
    Value::of(
        AudioOp::Clamp { count: (sequences * length) as usize },
        convolved(AudioLayer::Post, parts.post, 1, sequences, length, active),
    )
}

proof fn behind_both(sound: Sound, one: Seq<AudioStep>, other: Seq<AudioStep>)
    ensures
        sound.behind(one + other) == sound.behind(one).behind(other),
    decreases other.len(),
{
    if other.len() == 0 {
        assert(one + other =~= one);
    } else {
        behind_both(sound, one, other.drop_last());
        assert((one + other).drop_last() =~= one + other.drop_last());
    }
}

proof fn behind_one(sound: Sound, one: AudioStep)
    ensures
        sound.behind(seq![one]) == sound.after(one),
{
    reveal_with_fuel(Sound::behind, 2);
    assert(seq![one].drop_last() =~= Seq::empty());
}

proof fn behind_two(sound: Sound, one: AudioStep, two: AudioStep)
    ensures
        sound.behind(seq![one, two]) == sound.after(one).after(two),
{
    behind_one(sound, one);
    assert(seq![one, two].drop_last() =~= seq![one]);
}

/// Whether signals other than these two are as they were.
spec fn keeps(then: Sound, sound: Sound, one: Signal, other: Signal) -> bool {
    forall|signal: Signal| signal != one && signal != other ==> #[trigger] then.at(signal) == sound.at(signal)
}

proof fn a_convolution_flows(
    sound: Sound,
    layer: AudioLayer,
    convolution: Convolution,
    dilation: usize,
    input: Signal,
    output: Signal,
    sequences: int,
    length: int,
)
    requires
        output != Signal::Columns,
    ensures
        ({
            let then = sound.behind(
                audio_vae::convolve_steps(layer, convolution, dilation, input, output, sequences, length),
            );
            &&& then.at(output) == convolved(layer, convolution, dilation as int, sequences, length, sound.at(input))
            &&& keeps(then, sound, output, Signal::Columns)
        }),
{
    let list = audio_vae::convolve_steps(layer, convolution, dilation, input, output, sequences, length);
    if convolution.kernel == 1 {
        assert(list =~= seq![list[0]]);
        behind_one(sound, list[0]);
    } else {
        assert(list =~= seq![list[0], list[1]]);
        behind_two(sound, list[0], list[1]);
    }
}

/// Whether what a block does not write is as it was.
spec fn keeps_the_rest(then: Sound, sound: Sound, block: int) -> bool {
    &&& then.at(Signal::Upsampled) == sound.at(Signal::Upsampled)
    &&& block > 0 ==> then.at(Signal::Signal) == sound.at(Signal::Signal)
}

proof fn a_unit_flows(
    sound: Sound,
    parts: AmpParts,
    stage: int,
    block: int,
    unit: int,
    sequences: int,
    length: int,
    channels: int,
)
    requires
        0 <= block < 3,
        0 <= unit < 3,
    ensures
        ({
            let then = sound.behind(audio_vae::unit_steps(parts, stage, block, unit, sequences, length, channels));
            let source = if unit == 0 {
                Signal::Upsampled
            } else {
                audio_vae::running_of(block)
            };
            &&& then.at(audio_vae::running_of(block)) == unit_of(
                parts,
                stage,
                block,
                unit,
                sequences,
                length,
                channels,
                sound.at(source),
            )
            &&& keeps_the_rest(then, sound, block)
        }),
{
    let source = if unit == 0 {
        Signal::Upsampled
    } else {
        audio_vae::running_of(block)
    };
    let (s, b, u) = (stage as usize, block as usize, unit as usize);
    let first = AudioStep::Activate {
        activation: AudioActivation::Block { stage: s, block: b, index: (2 * unit) as usize },
        input: source,
        output: Signal::First,
        length: length as usize,
    };
    let second = AudioStep::Activate {
        activation: AudioActivation::Block { stage: s, block: b, index: (2 * unit + 1) as usize },
        input: Signal::Second,
        output: Signal::First,
        length: length as usize,
    };
    let add = AudioStep::Add {
        output: audio_vae::running_of(block),
        first: Signal::Second,
        second: source,
        count: (sequences * length * channels) as usize,
        divisor: 1,
    };
    let (dilated, plain) = (
        AudioLayer::Dilated { stage: s, block: b, unit: u },
        AudioLayer::Plain { stage: s, block: b, unit: u },
    );
    assert(audio_vae::dilation_of(unit) == 2 * unit + 1);
    let wide = audio_vae::convolve_steps(
        dilated,
        parts.dilated[unit],
        audio_vae::dilation_of(unit),
        Signal::First,
        Signal::Second,
        sequences,
        length,
    );
    let narrow = audio_vae::convolve_steps(
        plain,
        parts.plain[unit],
        1,
        Signal::First,
        Signal::Second,
        sequences,
        length,
    );
    assert(audio_vae::unit_steps(parts, stage, block, unit, sequences, length, channels) =~= seq![first] + wide + seq![
        second,
    ] + narrow + seq![add]);
    behind_both(sound, seq![first] + wide + seq![second] + narrow, seq![add]);
    behind_both(sound, seq![first] + wide + seq![second], narrow);
    behind_both(sound, seq![first] + wide, seq![second]);
    behind_both(sound, seq![first], wide);
    behind_one(sound, first);
    let one = sound.after(first);
    a_convolution_flows(
        one,
        dilated,
        parts.dilated[unit],
        audio_vae::dilation_of(unit),
        Signal::First,
        Signal::Second,
        sequences,
        length,
    );
    let two = one.behind(wide);
    behind_one(two, second);
    let three = two.after(second);
    a_convolution_flows(three, plain, parts.plain[unit], 1, Signal::First, Signal::Second, sequences, length);
    let four = three.behind(narrow);
    behind_one(four, add);
    assert(four.at(source) == sound.at(source)) by {
        assert(two.at(source) == one.at(source));
        assert(four.at(source) == three.at(source));
    }
    assert forall|signal: Signal| signal == Signal::Upsampled || signal == Signal::Signal implies #[trigger] four.at(
        signal,
    ) == sound.at(signal) by {
        assert(two.at(signal) == one.at(signal));
        assert(four.at(signal) == three.at(signal));
    }
    let then = four.after(add);
    assert(three.at(Signal::First) == Value::of(
        AudioOp::Activate {
            activation: AudioActivation::Block { stage: s, block: b, index: (2 * unit + 1) as usize },
            length: length as usize,
        },
        two.at(Signal::Second),
    ));
    assert(one.at(Signal::First) == Value::of(
        AudioOp::Activate {
            activation: AudioActivation::Block { stage: s, block: b, index: (2 * unit) as usize },
            length: length as usize,
        },
        sound.at(source),
    ));
    assert(then.at(audio_vae::running_of(block)) == sum_of(
        (sequences * length * channels) as usize,
        four.at(Signal::Second),
        sound.at(source),
    ));
    assert(keeps_the_rest(then, sound, block)) by {
        assert(four.at(Signal::Upsampled) == sound.at(Signal::Upsampled));
        assert(four.at(Signal::Signal) == sound.at(Signal::Signal));
    }
}

proof fn units_flow(
    sound: Sound,
    parts: AmpParts,
    stage: int,
    block: int,
    sequences: int,
    length: int,
    channels: int,
    units: int,
)
    requires
        0 <= block < 3,
        0 <= units <= 3,
    ensures
        ({
            let then = sound.behind(
                audio_vae::units_steps(parts, stage, block, sequences, length, channels, units),
            );
            &&& units > 0 ==> then.at(audio_vae::running_of(block)) == units_of(
                parts,
                stage,
                block,
                sequences,
                length,
                channels,
                units,
                sound.at(Signal::Upsampled),
            )
            &&& keeps_the_rest(then, sound, block)
        }),
    decreases units,
{
    if units > 0 {
        units_flow(sound, parts, stage, block, sequences, length, channels, units - 1);
        let earlier = audio_vae::units_steps(parts, stage, block, sequences, length, channels, units - 1);
        let list = audio_vae::unit_steps(parts, stage, block, units - 1, sequences, length, channels);
        behind_both(sound, earlier, list);
        a_unit_flows(sound.behind(earlier), parts, stage, block, units - 1, sequences, length, channels);
        reveal_with_fuel(units_of, 2);
    }
}

/// What a stage leaves behind its upsampling.
proof fn blocks_flow(sound: Sound, stage: StageParts, index: int, sequences: int, length: int)
    requires
        stage.blocks.len() == 3,
    ensures
        ({
            let channels = stage.upsample.outputs as int;
            let count = (sequences * length * channels) as usize;
            let wide = sound.at(Signal::Upsampled);
            let then = sound.behind(audio_vae::blocks_steps(stage.blocks, index, sequences, length, channels, 3));
            then.at(Signal::Signal) == Value::of(
                AudioOp::Values { count },
                Value::of(
                    AudioOp::Divided { by: 3 },
                    sum_of(
                        count,
                        block_of(stage, index, 0, sequences, length, wide),
                        block_of(stage, index, 1, sequences, length, wide),
                    ).plus(block_of(stage, index, 2, sequences, length, wide)),
                ),
            )
        }),
{
    let channels = stage.upsample.outputs as int;
    let count = (sequences * length * channels) as usize;
    let zero = audio_vae::units_steps(stage.blocks[0], index, 0, sequences, length, channels, 3);
    let one = audio_vae::units_steps(stage.blocks[1], index, 1, sequences, length, channels, 3);
    let two = audio_vae::units_steps(stage.blocks[2], index, 2, sequences, length, channels, 3);
    let second = audio_vae::average_steps(1, count);
    let third = audio_vae::average_steps(2, count);
    reveal_with_fuel(audio_vae::blocks_steps, 4);
    assert(audio_vae::blocks_steps(stage.blocks, index, sequences, length, channels, 3) =~= zero + one + second + two
        + third);
    behind_both(sound, zero + one + second + two, third);
    behind_both(sound, zero + one + second, two);
    behind_both(sound, zero + one, second);
    behind_both(sound, zero, one);
    units_flow(sound, stage.blocks[0], index, 0, sequences, length, channels, 3);
    let first = sound.behind(zero);
    units_flow(first, stage.blocks[1], index, 1, sequences, length, channels, 3);
    let middle = first.behind(one);
    assert(second =~= seq![second[0]]);
    behind_one(middle, second[0]);
    let added = middle.after(second[0]);
    units_flow(added, stage.blocks[2], index, 2, sequences, length, channels, 3);
    let last = added.behind(two);
    assert(third =~= seq![third[0]]);
    behind_one(last, third[0]);
}

proof fn stages_flow(sound: Sound, stages: Seq<StageParts>, sequences: int, frames: int, count: int)
    requires
        0 <= count <= stages.len(),
        forall|i: int| 0 <= i < stages.len() ==> (#[trigger] stages[i]).blocks.len() == 3,
    ensures
        sound.behind(audio_vae::stages_steps(stages, sequences, frames, count)).at(Signal::Signal) == signal_of(
            stages,
            sequences,
            frames,
            count,
            sound.at(Signal::Signal),
        ),
    decreases count,
{
    if count > 0 {
        let index = count - 1;
        let stage = stages[index];
        let length = audio_vae::length_after(frames, count);
        let earlier = audio_vae::stages_steps(stages, sequences, frames, index);
        let rise = audio_vae::upsample_steps(index, sequences, audio_vae::length_after(frames, index));
        let blocks = audio_vae::blocks_steps(
            stage.blocks,
            index,
            sequences,
            length,
            stage.upsample.outputs as int,
            3,
        );
        stages_flow(sound, stages, sequences, frames, index);
        let before = sound.behind(earlier);
        behind_both(sound, earlier + rise, blocks);
        behind_both(sound, earlier, rise);
        assert(rise =~= seq![rise[0], rise[1]]);
        behind_two(before, rise[0], rise[1]);
        blocks_flow(before.behind(rise), stage, index, sequences, length);
    }
}

/// Whatever the signals held before but for the latent, the launches of a decode call leave its waveform: each stage is
/// the average of its three blocks on what it has upsampled, each block counting once, and each residual unit of a
/// block is on top of what came into it.
pub proof fn a_latent_is_decoded(sound: Sound, parts: DecoderParts, sequences: int, frames: int)
    requires
        parts.stages.len() == 7,
        forall|i: int| 0 <= i < parts.stages.len() ==> (#[trigger] parts.stages[i]).blocks.len() == 3,
    ensures
        sound.behind(audio_vae::decode_steps(parts, sequences, frames)).at(Signal::Output) == waveform(
            parts,
            sequences,
            frames,
            sound.at(Signal::Latent),
        ),
{
    let length = audio_vae::length_after(frames, 7);
    let project = audio_vae::convolve_steps(
        AudioLayer::InputProjection,
        parts.input_projection,
        1,
        Signal::Latent,
        Signal::First,
        sequences,
        frames,
    );
    let pre = audio_vae::convolve_steps(AudioLayer::Pre, parts.pre, 1, Signal::First, Signal::Signal, sequences, frames);
    let stages = audio_vae::stages_steps(parts.stages, sequences, frames, 7);
    let activate = AudioStep::Activate {
        activation: AudioActivation::Post,
        input: Signal::Signal,
        output: Signal::First,
        length: length as usize,
    };
    let post = audio_vae::convolve_steps(
        AudioLayer::Post,
        parts.post,
        1,
        Signal::First,
        Signal::Output,
        sequences,
        length,
    );
    let clamp = AudioStep::Clamp { count: (sequences * length) as usize };
    behind_both(sound, project + pre + stages + seq![activate] + post, seq![clamp]);
    behind_both(sound, project + pre + stages + seq![activate], post);
    behind_both(sound, project + pre + stages, seq![activate]);
    behind_both(sound, project + pre, stages);
    behind_both(sound, project, pre);
    a_convolution_flows(
        sound,
        AudioLayer::InputProjection,
        parts.input_projection,
        1,
        Signal::Latent,
        Signal::First,
        sequences,
        frames,
    );
    let one = sound.behind(project);
    a_convolution_flows(one, AudioLayer::Pre, parts.pre, 1, Signal::First, Signal::Signal, sequences, frames);
    let two = one.behind(pre);
    stages_flow(two, parts.stages, sequences, frames, 7);
    let three = two.behind(stages);
    behind_one(three, activate);
    let four = three.after(activate);
    a_convolution_flows(four, AudioLayer::Post, parts.post, 1, Signal::First, Signal::Output, sequences, length);
    behind_one(four.behind(post), clamp);
}

} // verus!
