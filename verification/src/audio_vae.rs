//! Audio VAE decoding on the GPU: the BigVGAN vocoder at 32 kHz in FP32.
//!
//! Signals are time-major, `[stereo channels, samples, channels]`, and each stereo channel decodes
//! as its own sequence. Every convolution runs as im2col and a cuBLASLt FP32 GEMM.
use crate::arithmetic;
use crate::checkpoint;
use crate::checkpoint::TensorInfo;
use crate::layout;
use crate::layout::{Sides, Strides};
use crate::model;
use crate::model::Error;
use crate::text;
use vstd::prelude::*;

verus! {

/// Samples per second.
pub const SAMPLE_RATE: usize = 32000;

/// The transposed convolutions.
pub const STAGES: usize = 7;

/// The blocks that a stage averages, and the dilated residual units of a block.
pub const BLOCKS: usize = 3;

pub const UNITS: usize = 3;

/// Kernel of the convolutions at the edges.
pub const EDGE_KERNEL: usize = 7;

/// Widest kernel of a block.
pub const WIDEST_KERNEL: usize = 11;

/// Values of an activation's filters.
pub const FILTER: usize = 12;

/// Upsampling rate of a transposed convolution.
pub open spec fn rate_of(stage: int) -> usize {
    if stage < 2 {
        5
    } else {
        2
    }
}

/// Kernel size of a transposed convolution.
pub open spec fn kernel_of(stage: int) -> usize {
    if stage < 2 {
        9
    } else {
        4
    }
}

/// Kernel size of a block of a stage.
pub open spec fn block_kernel_of(block: int) -> usize {
    if block == 0 {
        3
    } else if block == 1 {
        7
    } else {
        11
    }
}

/// Dilation of the first convolution of a unit.
pub open spec fn dilation_of(unit: int) -> usize {
    if unit == 0 {
        1
    } else if unit == 1 {
        3
    } else {
        5
    }
}

fn rate(stage: usize) -> (rate: usize)
    ensures
        rate == rate_of(stage as int),
{
    if stage < 2 {
        5
    } else {
        2
    }
}

fn kernel(stage: usize) -> (kernel: usize)
    ensures
        kernel == kernel_of(stage as int),
{
    if stage < 2 {
        9
    } else {
        4
    }
}

fn block_kernel(block: usize) -> (kernel: usize)
    ensures
        kernel == block_kernel_of(block as int),
{
    if block == 0 {
        3
    } else if block == 1 {
        7
    } else {
        11
    }
}

fn dilation(unit: usize) -> (dilation: usize)
    ensures
        dilation == dilation_of(unit as int),
{
    if unit == 0 {
        1
    } else if unit == 1 {
        3
    } else {
        5
    }
}

/// Samples that the first `stages` stages make of one latent frame: the product of their rates.
pub open spec fn samples_after(stages: int) -> int
    decreases stages,
{
    if stages <= 0 {
        1
    } else {
        samples_after(stages - 1) * rate_of(stages - 1)
    }
}

/// The rates of the stages come to 800 samples per latent frame.
pub proof fn a_latent_frame_is_800_samples()
    ensures
        samples_after(STAGES as int) == 800,
{
    assert(samples_after(0) == 1);
    assert(samples_after(1) == 5);
    assert(samples_after(2) == 25);
    assert(samples_after(3) == 50);
    assert(samples_after(4) == 100);
    assert(samples_after(5) == 200);
    assert(samples_after(6) == 400);
}

#[derive(Clone, Copy, Debug, PartialEq, Eq, Structural)]
pub struct AudioDecoderConfig {
    pub latent_channels: usize,
    pub latent_features: usize,
    pub initial_channels: usize,
}

impl AudioDecoderConfig {
    /// Samples of one latent frame.
    pub fn samples_per_latent(&self) -> (samples: usize)
        ensures
            samples == samples_after(STAGES as int),
    {
        proof {
            a_latent_frame_is_800_samples();
        }
        let mut samples: usize = 1;
        for stage in 0..STAGES
            invariant
                samples == samples_after(stage as int),
                samples_after(STAGES as int) == 800,
        {
            proof {
                samples_grow(stage + 1, STAGES as int);
            }
            samples = samples * rate(stage);
        }
        samples
    }
}

proof fn samples_grow(stages: int, all: int)
    requires
        0 <= stages <= all,
    ensures
        1 <= samples_after(stages) <= samples_after(all),
    decreases all,
{
    if all > 0 {
        let before = if stages < all {
            stages
        } else {
            all - 1
        };
        samples_grow(before, all - 1);
        let (last, rate) = (samples_after(all - 1), rate_of(all - 1) as int);
        assert(last * rate >= last) by (nonlinear_arith)
            requires
                last >= 1,
                rate >= 1,
        ;
    }
}

/// A convolution with its weight laid out for im2col rows: `[outputs, kernel, inputs]`, or
/// `[kernel, outputs, inputs]` for a transposed convolution.
#[derive(Clone, Copy, Debug, PartialEq, Eq, Structural)]
pub struct Convolution {
    pub outputs: usize,
    pub inputs: usize,
    pub kernel: usize,
    pub biased: bool,
}

/// The weight `[.., .., ..]` of a convolution of a file.
pub open spec fn weight_of(file: Seq<TensorInfo>, name: Seq<char>) -> Result<Seq<usize>, Seq<char>> {
    match checkpoint::place_of(file, name + ".weight"@) {
        None => Err(model::missing_tensor(name + ".weight"@)),
        Some(place) => {
            let shape = file[place].shape@;
            if shape.len() != 3 {
                Err(name + ".weight has shape "@ + text::listed(shape))
            } else {
                Ok(shape)
            }
        },
    }
}

fn weight(file: &Vec<TensorInfo>, name: &str) -> (place: Result<usize, Error>)
    ensures
        match weight_of(file@, name@) {
            Ok(shape) => place matches Ok(place) && place < file@.len() && file@[place as int].shape@ == shape,
            Err(words) => place matches Err(error) && error.says(words),
        },
{
    let place: usize = checkpoint::need_part(file, name, ".weight")?;
    if file[place].shape.len() != 3 {
        let mut message = String::from_str(name);
        message.append(".weight has shape ");
        text::push_list(&mut message, &file[place].shape);
        return Err(Error::Model(message));
    }
    Ok(place)
}

impl Convolution {
    /// A convolution `[outputs, inputs, kernel]` of a file.
    pub open spec fn of(file: Seq<TensorInfo>, name: Seq<char>, has_bias: bool) -> Result<Convolution, Seq<char>> {
        match weight_of(file, name) {
            Err(words) => Err(words),
            Ok(shape) => if has_bias && checkpoint::place_of(file, name + ".bias"@) is None {
                Err(model::missing_tensor(name + ".bias"@))
            } else {
                Ok(Convolution { outputs: shape[0], inputs: shape[1], kernel: shape[2], biased: has_bias })
            },
        }
    }

    pub fn load(file: &Vec<TensorInfo>, name: &str, has_bias: bool) -> (convolution: Result<Convolution, Error>)
        ensures
            checkpoint::gave(convolution, Convolution::of(file@, name@, has_bias)),
    {
        let place: usize = weight(file, name)?;
        if has_bias {
            checkpoint::need_part(file, name, ".bias")?;
        }
        Ok(
            Convolution {
                outputs: file[place].shape[0],
                inputs: file[place].shape[1],
                kernel: file[place].shape[2],
                biased: has_bias,
            },
        )
    }

    /// A transposed convolution `[inputs, outputs, kernel]` of a file.
    pub open spec fn transposed_of(file: Seq<TensorInfo>, name: Seq<char>) -> Result<Convolution, Seq<char>> {
        match weight_of(file, name) {
            Err(words) => Err(words),
            Ok(shape) => if checkpoint::place_of(file, name + ".bias"@) is None {
                Err(model::missing_tensor(name + ".bias"@))
            } else {
                Ok(Convolution { outputs: shape[1], inputs: shape[0], kernel: shape[2], biased: true })
            },
        }
    }

    pub fn load_transposed(file: &Vec<TensorInfo>, name: &str) -> (convolution: Result<Convolution, Error>)
        ensures
            checkpoint::gave(convolution, Convolution::transposed_of(file@, name@)),
    {
        let place: usize = weight(file, name)?;
        checkpoint::need_part(file, name, ".bias")?;
        Ok(
            Convolution {
                outputs: file[place].shape[1],
                inputs: file[place].shape[0],
                kernel: file[place].shape[2],
                biased: true,
            },
        )
    }

    /// The weight `[outputs, inputs, kernel]` as `[outputs, kernel, inputs]`.
    pub fn reordered<T: Copy>(&self, weight: &Vec<T>) -> (values: Vec<T>)
        requires
            weight@.len() == self.outputs * self.inputs * self.kernel,
            self.inputs * self.kernel <= usize::MAX,
        ensures
            values@.len() == weight@.len(),
            forall|output: int, tap: int, input: int|
                #![trigger (Sides { outer: self.outputs, middle: self.kernel, inner: self.inputs }).place(
                    output,
                    tap,
                    input,
                )]
                0 <= output < self.outputs && 0 <= tap < self.kernel && 0 <= input < self.inputs ==> values@[(Sides {
                    outer: self.outputs,
                    middle: self.kernel,
                    inner: self.inputs,
                }).place(output, tap, input)] == weight@[(output * self.inputs + input) * self.kernel + tap],
    {
        let sides = Sides { outer: self.outputs, middle: self.kernel, inner: self.inputs };
        let strides = Strides { outer: self.inputs * self.kernel, middle: 1, inner: self.kernel };
        let length: usize = weight.len();
        let ghost (outputs, inputs, kernel) = (self.outputs as int, self.inputs as int, self.kernel as int);
        let ghost from = Sides { outer: self.outputs, middle: self.inputs, inner: self.kernel };
        proof {
            assert(outputs * inputs * kernel == outputs * kernel * inputs) by (nonlinear_arith);
            assert forall|x: int, y: int, z: int|
                #![trigger strides.place(x, y, z)]
                sides.holds(x, y, z) implies strides.place(x, y, z) < length by {
                layout::a_place_is_inside(from, x, z, y);
                assert(x * (inputs * kernel) + y * 1 + z * kernel == (x * inputs + z) * kernel + y) by (nonlinear_arith);
            }
        }
        let values = layout::gathered(weight, sides, strides);
        proof {
            assert forall|output: int, tap: int, input: int|
                #![trigger sides.place(output, tap, input)]
                0 <= output < outputs && 0 <= tap < kernel && 0 <= input < inputs implies values@[sides.place(
                output,
                tap,
                input,
            )] == weight@[(output * inputs + input) * kernel + tap] by {
                assert(sides.holds(output, tap, input));
                assert(output * (inputs * kernel) + tap * 1 + input * kernel == (output * inputs + input) * kernel + tap)
                    by (nonlinear_arith);
                assert(strides.place(output, tap, input) == (output * inputs + input) * kernel + tap);
            }
        }
        values
    }

    /// The weight `[inputs, outputs, kernel]` as `[kernel, outputs, inputs]`.
    pub fn reordered_transposed<T: Copy>(&self, weight: &Vec<T>) -> (values: Vec<T>)
        requires
            weight@.len() == self.inputs * self.outputs * self.kernel,
            self.outputs * self.kernel <= usize::MAX,
        ensures
            values@.len() == weight@.len(),
            forall|tap: int, output: int, input: int|
                #![trigger (Sides { outer: self.kernel, middle: self.outputs, inner: self.inputs }).place(
                    tap,
                    output,
                    input,
                )]
                0 <= tap < self.kernel && 0 <= output < self.outputs && 0 <= input < self.inputs ==> values@[(Sides {
                    outer: self.kernel,
                    middle: self.outputs,
                    inner: self.inputs,
                }).place(tap, output, input)] == weight@[(input * self.outputs + output) * self.kernel + tap],
    {
        let sides = Sides { outer: self.kernel, middle: self.outputs, inner: self.inputs };
        let strides = Strides { outer: 1, middle: self.kernel, inner: self.outputs * self.kernel };
        let length: usize = weight.len();
        let ghost (outputs, inputs, kernel) = (self.outputs as int, self.inputs as int, self.kernel as int);
        let ghost from = Sides { outer: self.inputs, middle: self.outputs, inner: self.kernel };
        proof {
            assert(inputs * outputs * kernel == kernel * outputs * inputs) by (nonlinear_arith);
            assert forall|x: int, y: int, z: int|
                #![trigger strides.place(x, y, z)]
                sides.holds(x, y, z) implies strides.place(x, y, z) < length by {
                layout::a_place_is_inside(from, z, y, x);
                assert(x * 1 + y * kernel + z * (outputs * kernel) == (z * outputs + y) * kernel + x)
                    by (nonlinear_arith);
            }
        }
        let values = layout::gathered(weight, sides, strides);
        proof {
            assert forall|tap: int, output: int, input: int|
                #![trigger sides.place(tap, output, input)]
                0 <= tap < kernel && 0 <= output < outputs && 0 <= input < inputs implies values@[sides.place(
                tap,
                output,
                input,
            )] == weight@[(input * outputs + output) * kernel + tap] by {
                assert(sides.holds(tap, output, input));
                assert(tap * 1 + output * kernel + input * (outputs * kernel) == (input * outputs + output) * kernel
                    + tap) by (nonlinear_arith);
                assert(strides.place(tap, output, input) == (input * outputs + output) * kernel + tap);
            }
        }
        values
    }
}

/// Whether the tensors of a file can be counted.
pub open spec fn is_countable(file: Seq<TensorInfo>) -> bool {
    forall|i: int| 0 <= i < file.len() ==> checkpoint::elements((#[trigger] file[i]).shape@) <= usize::MAX
}

/// A filter of an activation of a file.
pub open spec fn filter_of(file: Seq<TensorInfo>, name: Seq<char>) -> Result<(), Seq<char>> {
    match checkpoint::place_of(file, name) {
        None => Err(model::missing_tensor(name)),
        Some(place) => if checkpoint::elements(file[place].shape@) != FILTER {
            Err(name + " has shape "@ + text::listed(file[place].shape@))
        } else {
            Ok(())
        },
    }
}

fn filter(file: &Vec<TensorInfo>, name: String) -> (result: Result<(), Error>)
    ensures
        checkpoint::gave(result, filter_of(file@, name@)),
{
    let place: usize = checkpoint::need(file, name.clone())?;
    if !checkpoint::has_elements(&file[place].shape, FILTER) {
        let mut message = name;
        message.append(" has shape ");
        text::push_list(&mut message, &file[place].shape);
        return Err(Error::Model(message));
    }
    Ok(())
}

/// The channels of an anti-aliased SnakeBeta of a file: α and β per channel, and the upsample and downsample
/// filters.
pub open spec fn activation_of(file: Seq<TensorInfo>, name: Seq<char>) -> Result<usize, Seq<char>> {
    match checkpoint::place_of(file, name + ".act.alpha"@) {
        None => Err(model::missing_tensor(name + ".act.alpha"@)),
        Some(alpha) => if checkpoint::place_of(file, name + ".act.beta"@) is None {
            Err(model::missing_tensor(name + ".act.beta"@))
        } else {
            match filter_of(file, name + ".upsample.filter"@) {
                Err(words) => Err(words),
                Ok(_) => match filter_of(file, name + ".downsample.lowpass.filter"@) {
                    Err(words) => Err(words),
                    Ok(_) => Ok(checkpoint::elements(file[alpha].shape@) as usize),
                },
            }
        },
    }
}

fn activation(file: &Vec<TensorInfo>, name: &str) -> (channels: Result<usize, Error>)
    requires
        is_countable(file@),
    ensures
        checkpoint::gave(channels, activation_of(file@, name@)),
{
    let alpha: usize = checkpoint::need_part(file, name, ".act.alpha")?;
    checkpoint::need_part(file, name, ".act.beta")?;
    filter(file, checkpoint::joined(name, ".upsample.filter"))?;
    filter(file, checkpoint::joined(name, ".downsample.lowpass.filter"))?;
    Ok(checkpoint::count_elements(&file[alpha].shape))
}

/// Three dilated residual units, each an activation and a dilated convolution, then an activation
/// and a plain one.
pub struct AmpBlock {
    pub dilated: Vec<Convolution>,
    pub plain: Vec<Convolution>,
    /// The channels of the activations.
    pub activations: Vec<usize>,
}

/// What a block holds.
pub ghost struct AmpParts {
    pub dilated: Seq<Convolution>,
    pub plain: Seq<Convolution>,
    pub activations: Seq<usize>,
}

impl View for AmpBlock {
    type V = AmpParts;

    open spec fn view(&self) -> AmpParts {
        AmpParts { dilated: self.dilated@, plain: self.plain@, activations: self.activations@ }
    }
}

/// The convolutions of a row by their numbers.
pub open spec fn convolution_row(file: Seq<TensorInfo>, start: Seq<char>) -> spec_fn(int) -> Result<
    Convolution,
    Seq<char>,
> {
    |unit: int| Convolution::of(file, checkpoint::numbered(start, unit as nat, ""@), true)
}

fn convolutions(file: &Vec<TensorInfo>, start: &str) -> (list: Result<Vec<Convolution>, Error>)
    ensures
        checkpoint::gave_all(list, checkpoint::all_of(convolution_row(file@, start@), UNITS as int)),
{
    let ghost row = convolution_row(file@, start@);
    let mut list: Vec<Convolution> = Vec::new();
    for unit in 0..UNITS
        invariant
            row == convolution_row(file@, start@),
            checkpoint::all_of(row, unit as int) == Ok::<Seq<Convolution>, Seq<char>>(list@),
    {
        let name = checkpoint::numbered_name(start, unit, "");
        match Convolution::load(file, name.as_str(), true) {
            Ok(one) => {
                list.push(one);
            },
            Err(error) => {
                proof {
                    checkpoint::a_refusal_stays(row, unit + 1, UNITS as int);
                }
                return Err(error);
            },
        }
    }
    Ok(list)
}

/// The activations of a row by their numbers.
pub open spec fn activation_row(file: Seq<TensorInfo>, start: Seq<char>) -> spec_fn(int) -> Result<usize, Seq<char>> {
    |unit: int| activation_of(file, checkpoint::numbered(start, unit as nat, ""@))
}

fn activations(file: &Vec<TensorInfo>, start: &str) -> (list: Result<Vec<usize>, Error>)
    requires
        is_countable(file@),
    ensures
        checkpoint::gave_all(list, checkpoint::all_of(activation_row(file@, start@), 2 * UNITS as int)),
{
    let ghost row = activation_row(file@, start@);
    let mut list: Vec<usize> = Vec::new();
    for unit in 0..2 * UNITS
        invariant
            is_countable(file@),
            row == activation_row(file@, start@),
            checkpoint::all_of(row, unit as int) == Ok::<Seq<usize>, Seq<char>>(list@),
    {
        let name = checkpoint::numbered_name(start, unit, "");
        match activation(file, name.as_str()) {
            Ok(one) => {
                list.push(one);
            },
            Err(error) => {
                proof {
                    checkpoint::a_refusal_stays(row, unit + 1, 2 * UNITS as int);
                }
                return Err(error);
            },
        }
    }
    Ok(list)
}

/// Whether every convolution has this kernel size.
pub open spec fn all_have_kernel(list: Seq<Convolution>, kernel: usize) -> bool {
    forall|i: int| 0 <= i < list.len() ==> (#[trigger] list[i]).kernel == kernel
}

fn have_kernel(list: &Vec<Convolution>, kernel: usize) -> (answer: bool)
    ensures
        answer == all_have_kernel(list@, kernel),
{
    let count: usize = list.len();
    for index in 0..count
        invariant
            count == list@.len(),
            forall|i: int| 0 <= i < index ==> (#[trigger] list@[i]).kernel == kernel,
    {
        if list[index].kernel != kernel {
            return false;
        }
    }
    true
}

/// A block of a file.
pub open spec fn amp_of(file: Seq<TensorInfo>, name: Seq<char>, kernel: usize) -> Result<AmpParts, Seq<char>> {
    match checkpoint::all_of(convolution_row(file, name + ".convs1."@), UNITS as int) {
        Err(words) => Err(words),
        Ok(dilated) => match checkpoint::all_of(convolution_row(file, name + ".convs2."@), UNITS as int) {
            Err(words) => Err(words),
            Ok(plain) => match checkpoint::all_of(activation_row(file, name + ".activations."@), 2 * UNITS as int) {
                Err(words) => Err(words),
                Ok(activations) => if all_have_kernel(dilated, kernel) && all_have_kernel(plain, kernel) {
                    Ok(AmpParts { dilated, plain, activations })
                } else {
                    Err(name + " does not have kernel size "@ + text::decimal(kernel as nat))
                },
            },
        },
    }
}

fn amp_block(file: &Vec<TensorInfo>, name: &str, kernel: usize) -> (block: Result<AmpBlock, Error>)
    requires
        is_countable(file@),
    ensures
        match amp_of(file@, name@, kernel) {
            Ok(parts) => block matches Ok(block) && block@ == parts,
            Err(words) => block matches Err(error) && error.says(words),
        },
{
    let dilated = convolutions(file, checkpoint::joined(name, ".convs1.").as_str())?;
    let plain = convolutions(file, checkpoint::joined(name, ".convs2.").as_str())?;
    let activations = activations(file, checkpoint::joined(name, ".activations.").as_str())?;
    if !have_kernel(&dilated, kernel) || !have_kernel(&plain, kernel) {
        let mut message = String::from_str(name);
        message.append(" does not have kernel size ");
        text::push_size(&mut message, kernel);
        return Err(Error::Model(message));
    }
    Ok(AmpBlock { dilated, plain, activations })
}

/// A transposed convolution, and the blocks behind it.
pub struct Stage {
    pub upsample: Convolution,
    pub blocks: Vec<AmpBlock>,
}

/// What a stage holds.
pub ghost struct StageParts {
    pub upsample: Convolution,
    pub blocks: Seq<AmpParts>,
}

/// What blocks hold.
pub open spec fn block_parts(blocks: Seq<AmpBlock>) -> Seq<AmpParts> {
    Seq::new(blocks.len(), |i: int| blocks[i]@)
}

impl View for Stage {
    type V = StageParts;

    open spec fn view(&self) -> StageParts {
        StageParts { upsample: self.upsample, blocks: block_parts(self.blocks@) }
    }
}

/// Channels halved `times` times.
pub open spec fn halved(channels: int, times: int) -> int
    decreases times,
{
    if times <= 0 {
        channels
    } else {
        halved(channels, times - 1) / 2
    }
}

/// The blocks of a stage by their numbers.
pub open spec fn amp_row(file: Seq<TensorInfo>, prefix: Seq<char>, stage: int) -> spec_fn(int) -> Result<
    AmpParts,
    Seq<char>,
> {
    |block: int|
        amp_of(
            file,
            checkpoint::numbered(prefix + "decoder.resblocks."@, (stage * BLOCKS + block) as nat, ""@),
            block_kernel_of(block),
        )
}

/// A stage of a file, for the channels that come into it.
pub open spec fn stage_of(file: Seq<TensorInfo>, prefix: Seq<char>, initial: usize, stage: int) -> Result<
    StageParts,
    Seq<char>,
> {
    match Convolution::transposed_of(file, checkpoint::numbered(prefix + "decoder.ups."@, stage as nat, ".0"@)) {
        Err(words) => Err(words),
        Ok(upsample) => if upsample.kernel != kernel_of(stage) || upsample.inputs != halved(initial as int, stage)
            || upsample.outputs != upsample.inputs / 2 {
            Err("decoder.ups."@ + text::decimal(stage as nat) + " does not match the H3 vocoder"@)
        } else {
            match checkpoint::all_of(amp_row(file, prefix, stage), BLOCKS as int) {
                Err(words) => Err(words),
                Ok(blocks) => Ok(StageParts { upsample, blocks }),
            }
        },
    }
}

fn amp_blocks(file: &Vec<TensorInfo>, prefix: &str, stage: usize) -> (blocks: Result<Vec<AmpBlock>, Error>)
    requires
        is_countable(file@),
        stage < STAGES,
    ensures
        match checkpoint::all_of(amp_row(file@, prefix@, stage as int), BLOCKS as int) {
            Ok(parts) => blocks matches Ok(blocks) && block_parts(blocks@) == parts,
            Err(words) => blocks matches Err(error) && error.says(words),
        },
{
    let start = checkpoint::joined(prefix, "decoder.resblocks.");
    let ghost row = amp_row(file@, prefix@, stage as int);
    let mut blocks: Vec<AmpBlock> = Vec::new();
    assert(block_parts(blocks@) =~= Seq::empty());
    for block in 0..BLOCKS
        invariant
            is_countable(file@),
            stage < STAGES,
            start@ == prefix@ + "decoder.resblocks."@,
            row == amp_row(file@, prefix@, stage as int),
            checkpoint::all_of(row, block as int) == Ok::<Seq<AmpParts>, Seq<char>>(block_parts(blocks@)),
    {
        let name = checkpoint::numbered_name(start.as_str(), stage * BLOCKS + block, "");
        match amp_block(file, name.as_str(), block_kernel(block)) {
            Ok(one) => {
                let ghost before = blocks@;
                blocks.push(one);
                assert(block_parts(blocks@) =~= block_parts(before).push(one@));
            },
            Err(error) => {
                proof {
                    checkpoint::a_refusal_stays(row, block + 1, BLOCKS as int);
                }
                return Err(error);
            },
        }
    }
    Ok(blocks)
}

fn stage(file: &Vec<TensorInfo>, prefix: &str, inputs: usize, index: usize, initial: usize) -> (stage: Result<
    Stage,
    Error,
>)
    requires
        is_countable(file@),
        index < STAGES,
        inputs == halved(initial as int, index as int),
    ensures
        match stage_of(file@, prefix@, initial, index as int) {
            Ok(parts) => stage matches Ok(stage) && stage@ == parts,
            Err(words) => stage matches Err(error) && error.says(words),
        },
{
    let start = checkpoint::joined(prefix, "decoder.ups.");
    let name = checkpoint::numbered_name(start.as_str(), index, ".0");
    let upsample = Convolution::load_transposed(file, name.as_str())?;
    if upsample.kernel != kernel(index) || upsample.inputs != inputs || upsample.outputs != upsample.inputs / 2 {
        let mut message = String::from_str("decoder.ups.");
        text::push_size(&mut message, index);
        message.append(" does not match the H3 vocoder");
        return Err(Error::Model(message));
    }
    let blocks = amp_blocks(file, prefix, index)?;
    Ok(Stage { upsample, blocks })
}

/// The stages by their numbers.
pub open spec fn stage_row(file: Seq<TensorInfo>, prefix: Seq<char>, initial: usize) -> spec_fn(int) -> Result<
    StageParts,
    Seq<char>,
> {
    |index: int| stage_of(file, prefix, initial, index)
}

/// What stages hold.
pub open spec fn stage_parts(stages: Seq<Stage>) -> Seq<StageParts> {
    Seq::new(stages.len(), |i: int| stages[i]@)
}

fn stages(file: &Vec<TensorInfo>, prefix: &str, initial: usize) -> (stages: Result<Vec<Stage>, Error>)
    requires
        is_countable(file@),
    ensures
        match checkpoint::all_of(stage_row(file@, prefix@, initial), STAGES as int) {
            Ok(parts) => stages matches Ok(stages) && stage_parts(stages@) == parts,
            Err(words) => stages matches Err(error) && error.says(words),
        },
{
    let ghost row = stage_row(file@, prefix@, initial);
    let mut stages: Vec<Stage> = Vec::new();
    let mut inputs: usize = initial;
    assert(stage_parts(stages@) =~= Seq::empty());
    for index in 0..STAGES
        invariant
            is_countable(file@),
            inputs == halved(initial as int, index as int),
            row == stage_row(file@, prefix@, initial),
            checkpoint::all_of(row, index as int) == Ok::<Seq<StageParts>, Seq<char>>(stage_parts(stages@)),
    {
        match stage(file, prefix, inputs, index, initial) {
            Ok(one) => {
                let ghost before = stages@;
                stages.push(one);
                assert(stage_parts(stages@) =~= stage_parts(before).push(one@));
            },
            Err(error) => {
                proof {
                    checkpoint::a_refusal_stays(row, index + 1, STAGES as int);
                }
                return Err(error);
            },
        }
        inputs = inputs / 2;
    }
    Ok(stages)
}

/// A decoder whose weights are on the device.
pub struct CudaAudioDecoder {
    pub config: AudioDecoderConfig,
    pub input_projection: Convolution,
    pub pre: Convolution,
    pub stages: Vec<Stage>,
    /// The channels of the last activation.
    pub post_activation: usize,
    pub post: Convolution,
}

/// What a decoder holds.
pub ghost struct DecoderParts {
    pub input_projection: Convolution,
    pub pre: Convolution,
    pub stages: Seq<StageParts>,
    pub post_activation: usize,
    pub post: Convolution,
}

impl View for CudaAudioDecoder {
    type V = DecoderParts;

    open spec fn view(&self) -> DecoderParts {
        DecoderParts {
            input_projection: self.input_projection,
            pre: self.pre,
            stages: stage_parts(self.stages@),
            post_activation: self.post_activation,
            post: self.post,
        }
    }
}

/// The decoder of a file, or why there is none.
pub open spec fn decoder_of(file: Seq<TensorInfo>, prefix: Seq<char>) -> Result<DecoderParts, Seq<char>> {
    match Convolution::of(file, prefix + "dec_in_proj"@, true) {
        Err(words) => Err(words),
        Ok(input_projection) => match Convolution::of(file, prefix + "decoder.conv_pre"@, true) {
            Err(words) => Err(words),
            Ok(pre) => match checkpoint::all_of(stage_row(file, prefix, pre.outputs), STAGES as int) {
                Err(words) => Err(words),
                Ok(stages) => match activation_of(file, prefix + "decoder.activation_post"@) {
                    Err(words) => Err(words),
                    Ok(post_activation) => match Convolution::of(file, prefix + "decoder.conv_post"@, false) {
                        Err(words) => Err(words),
                        Ok(post) => if checkpoint::place_of(file, prefix + "latents_mean"@) is None {
                            Err(model::missing_tensor(prefix + "latents_mean"@))
                        } else if checkpoint::place_of(file, prefix + "latents_std"@) is None {
                            Err(model::missing_tensor(prefix + "latents_std"@))
                        } else {
                            Ok(DecoderParts { input_projection, pre, stages, post_activation, post })
                        },
                    },
                },
            },
        },
    }
}

impl CudaAudioDecoder {
    /// Loads the decoder half of an audio VAE checkpoint. `prefix` is prepended to every
    /// checkpoint tensor name.
    pub fn load(file: &Vec<TensorInfo>, prefix: &str) -> (decoder: Result<CudaAudioDecoder, Error>)
        requires
            is_countable(file@),
        ensures
            match decoder_of(file@, prefix@) {
                Err(words) => decoder matches Err(error) && error.says(words),
                Ok(parts) => decoder matches Ok(decoder) && decoder@ == parts && decoder.config == (
                AudioDecoderConfig {
                    latent_channels: parts.input_projection.inputs,
                    latent_features: parts.input_projection.outputs,
                    initial_channels: parts.pre.outputs,
                }),
            },
    {
        let input_projection = Convolution::load(file, checkpoint::joined(prefix, "dec_in_proj").as_str(), true)?;
        let pre = Convolution::load(file, checkpoint::joined(prefix, "decoder.conv_pre").as_str(), true)?;
        let config = AudioDecoderConfig {
            latent_channels: input_projection.inputs,
            latent_features: input_projection.outputs,
            initial_channels: pre.outputs,
        };
        let stages = stages(file, prefix, config.initial_channels)?;
        let post_activation: usize = activation(
            file,
            checkpoint::joined(prefix, "decoder.activation_post").as_str(),
        )?;
        let post = Convolution::load(file, checkpoint::joined(prefix, "decoder.conv_post").as_str(), false)?;
        checkpoint::need_part(file, prefix, "latents_mean")?;
        checkpoint::need_part(file, prefix, "latents_std")?;
        Ok(CudaAudioDecoder { config, input_projection, pre, stages, post_activation, post })
    }

    pub fn config(&self) -> (config: AudioDecoderConfig)
        ensures
            config == self.config,
    {
        self.config
    }
}

/// A buffer of one decode call.
#[derive(Clone, Copy, Debug, PartialEq, Eq, Structural)]
pub enum Signal {
    /// The latent as rows.
    Latent,
    /// What comes into a stage, and what its blocks leave.
    Signal,
    /// What a stage has upsampled.
    Upsampled,
    Running,
    First,
    Second,
    /// The im2col columns, or the products of a transposed convolution.
    Columns,
    Output,
}

/// A convolution of the decoder.
#[derive(Clone, Copy, Debug, PartialEq, Eq, Structural)]
pub enum AudioLayer {
    InputProjection,
    Pre,
    Upsample { stage: usize },
    Dilated { stage: usize, block: usize, unit: usize },
    Plain { stage: usize, block: usize, unit: usize },
    Post,
}

/// The name of a row of things of a block, without the prefix of the decoder.
pub open spec fn block_letters(stage: usize, block: usize, rest: Seq<char>) -> Seq<char> {
    checkpoint::numbered("decoder.resblocks."@, (stage * BLOCKS + block) as nat, ""@) + rest
}

fn block_name(stage: usize, block: usize, rest: &str, index: usize) -> (name: String)
    requires
        stage * BLOCKS + block <= usize::MAX,
    ensures
        name@ == checkpoint::numbered(block_letters(stage, block, rest@), index as nat, ""@),
{
    let start = checkpoint::numbered_name("decoder.resblocks.", stage * BLOCKS + block, "");
    checkpoint::numbered_name(checkpoint::joined(start.as_str(), rest).as_str(), index, "")
}

impl AudioLayer {
    pub open spec fn letters(self) -> Seq<char> {
        match self {
            AudioLayer::InputProjection => "dec_in_proj"@,
            AudioLayer::Pre => "decoder.conv_pre"@,
            AudioLayer::Upsample { stage } => checkpoint::numbered("decoder.ups."@, stage as nat, ".0"@),
            AudioLayer::Dilated { stage, block, unit } => checkpoint::numbered(
                block_letters(stage, block, ".convs1."@),
                unit as nat,
                ""@,
            ),
            AudioLayer::Plain { stage, block, unit } => checkpoint::numbered(
                block_letters(stage, block, ".convs2."@),
                unit as nat,
                ""@,
            ),
            AudioLayer::Post => "decoder.conv_post"@,
        }
    }

    /// The name of the layer, without the prefix of the decoder.
    pub fn name(self) -> (name: String)
        requires
            self matches AudioLayer::Dilated { stage, block, .. } ==> stage * BLOCKS + block <= usize::MAX,
            self matches AudioLayer::Plain { stage, block, .. } ==> stage * BLOCKS + block <= usize::MAX,
        ensures
            name@ == self.letters(),
    {
        match self {
            AudioLayer::InputProjection => String::from_str("dec_in_proj"),
            AudioLayer::Pre => String::from_str("decoder.conv_pre"),
            AudioLayer::Upsample { stage } => checkpoint::numbered_name("decoder.ups.", stage, ".0"),
            AudioLayer::Dilated { stage, block, unit } => block_name(stage, block, ".convs1.", unit),
            AudioLayer::Plain { stage, block, unit } => block_name(stage, block, ".convs2.", unit),
            AudioLayer::Post => String::from_str("decoder.conv_post"),
        }
    }
}

/// An activation of the decoder.
#[derive(Clone, Copy, Debug, PartialEq, Eq, Structural)]
pub enum AudioActivation {
    Block { stage: usize, block: usize, index: usize },
    Post,
}

impl AudioActivation {
    pub open spec fn letters(self) -> Seq<char> {
        match self {
            AudioActivation::Block { stage, block, index } => checkpoint::numbered(
                block_letters(stage, block, ".activations."@),
                index as nat,
                ""@,
            ),
            AudioActivation::Post => "decoder.activation_post"@,
        }
    }

    /// The name of the activation, without the prefix of the decoder.
    pub fn name(self) -> (name: String)
        requires
            self matches AudioActivation::Block { stage, block, .. } ==> stage * BLOCKS + block <= usize::MAX,
        ensures
            name@ == self.letters(),
    {
        match self {
            AudioActivation::Block { stage, block, index } => block_name(stage, block, ".activations.", index),
            AudioActivation::Post => String::from_str("decoder.activation_post"),
        }
    }
}

/// A launch of a decode call.
#[allow(inconsistent_fields)]
#[derive(Clone, Copy, Debug, PartialEq, Eq, Structural)]
pub enum AudioStep {
    /// The im2col columns of a signal of `length` samples per sequence.
    Columns { layer: AudioLayer, dilation: usize, padding: usize, input: Signal, length: usize },
    /// Rows through the weight of a layer, which for a transposed convolution leaves its bias to the gather.
    Product { layer: AudioLayer, input: Signal, output: Signal, rows: usize },
    /// The products of a transposed convolution, gathered onto its outputs.
    Gather { stage: usize, rate: usize, padding: usize, length: usize, output_length: usize },
    Activate { activation: AudioActivation, input: Signal, output: Signal, length: usize },
    /// The sum of two signals, divided.
    Add { output: Signal, first: Signal, second: Signal, count: usize, divisor: usize },
    /// The output brought into [−1, 1].
    Clamp { count: usize },
}

/// `output[sequences × length, outputs]` from `input[sequences × length, inputs]`, through
/// im2col for kernels wider than one sample. Zero padding keeps the length.
pub open spec fn convolve_steps(
    layer: AudioLayer,
    convolution: Convolution,
    dilation: usize,
    input: Signal,
    output: Signal,
    sequences: int,
    length: int,
) -> Seq<AudioStep> {
    let rows = (sequences * length) as usize;
    if convolution.kernel == 1 {
        seq![AudioStep::Product { layer, input, output, rows }]
    } else {
        seq![
            AudioStep::Columns {
                layer,
                dilation,
                padding: (dilation * (convolution.kernel - 1) / 2) as usize,
                input,
                length: length as usize,
            },
            AudioStep::Product { layer, input: Signal::Columns, output, rows },
        ]
    }
}

fn convolve(
    layer: AudioLayer,
    convolution: &Convolution,
    dilation: usize,
    input: Signal,
    output: Signal,
    sequences: usize,
    length: usize,
    steps: &mut Vec<AudioStep>,
)
    requires
        convolution.kernel >= 1,
        dilation * (convolution.kernel - 1) <= usize::MAX,
        sequences * length <= usize::MAX,
    ensures
        final(steps)@ == old(steps)@ + convolve_steps(
            layer,
            *convolution,
            dilation,
            input,
            output,
            sequences as int,
            length as int,
        ),
{
    let ghost before = steps@;
    let rows: usize = sequences * length;
    if convolution.kernel == 1 {
        steps.push(AudioStep::Product { layer, input, output, rows });
    } else {
        let padding: usize = dilation * (convolution.kernel - 1) / 2;
        steps.push(AudioStep::Columns { layer, dilation, padding, input, length });
        steps.push(AudioStep::Product { layer, input: Signal::Columns, output, rows });
    }
    assert(steps@ =~= before + convolve_steps(
        layer,
        *convolution,
        dilation,
        input,
        output,
        sequences as int,
        length as int,
    ));
}

/// Samples per sequence behind the first `stages` stages.
pub open spec fn length_after(frames: int, stages: int) -> int {
    frames * samples_after(stages)
}

/// The padding of a transposed convolution, and the samples it makes.
pub open spec fn upsampled_length(length: int, rate: int, kernel: int) -> int {
    (length - 1) * rate + kernel - 2 * ((kernel - rate) / 2)
}

/// A transposed convolution makes `rate` samples of each.
pub proof fn a_stage_multiplies_the_samples(length: int, stage: int)
    ensures
        upsampled_length(length, rate_of(stage) as int, kernel_of(stage) as int) == length * rate_of(stage),
{
    let rate = rate_of(stage) as int;
    assert((length - 1) * rate == length * rate - rate) by (nonlinear_arith);
}

/// Upsamples what comes into a stage.
pub open spec fn upsample_steps(stage: int, sequences: int, length: int) -> Seq<AudioStep> {
    seq![
        AudioStep::Product {
            layer: AudioLayer::Upsample { stage: stage as usize },
            input: Signal::Signal,
            output: Signal::Columns,
            rows: (sequences * length) as usize,
        },
        AudioStep::Gather {
            stage: stage as usize,
            rate: rate_of(stage),
            padding: ((kernel_of(stage) - rate_of(stage)) / 2) as usize,
            length: length as usize,
            output_length: (length * rate_of(stage)) as usize,
        },
    ]
}

/// Where a block keeps its residual.
pub open spec fn running_of(block: int) -> Signal {
    if block == 0 {
        Signal::Signal
    } else {
        Signal::Running
    }
}

/// One residual unit of a block.
pub open spec fn unit_steps(
    parts: AmpParts,
    stage: int,
    block: int,
    unit: int,
    sequences: int,
    length: int,
    channels: int,
) -> Seq<AudioStep> {
    let source = if unit == 0 {
        Signal::Upsampled
    } else {
        running_of(block)
    };
    let (s, b, u) = (stage as usize, block as usize, unit as usize);
    let (first, second) = (
        AudioActivation::Block { stage: s, block: b, index: (2 * unit) as usize },
        AudioActivation::Block { stage: s, block: b, index: (2 * unit + 1) as usize },
    );
    seq![
        AudioStep::Activate { activation: first, input: source, output: Signal::First, length: length as usize },
    ] + convolve_steps(
        AudioLayer::Dilated { stage: s, block: b, unit: u },
        parts.dilated[unit],
        dilation_of(unit),
        Signal::First,
        Signal::Second,
        sequences,
        length,
    ) + seq![
        AudioStep::Activate {
            activation: second,
            input: Signal::Second,
            output: Signal::First,
            length: length as usize,
        },
    ] + convolve_steps(
        AudioLayer::Plain { stage: s, block: b, unit: u },
        parts.plain[unit],
        1,
        Signal::First,
        Signal::Second,
        sequences,
        length,
    ) + seq![
        AudioStep::Add {
            output: running_of(block),
            first: Signal::Second,
            second: source,
            count: (sequences * length * channels) as usize,
            divisor: 1,
        },
    ]
}

/// The first `units` residual units of a block.
pub open spec fn units_steps(
    parts: AmpParts,
    stage: int,
    block: int,
    sequences: int,
    length: int,
    channels: int,
    units: int,
) -> Seq<AudioStep>
    decreases units,
{
    if units <= 0 {
        Seq::empty()
    } else {
        units_steps(parts, stage, block, sequences, length, channels, units - 1) + unit_steps(
            parts,
            stage,
            block,
            units - 1,
            sequences,
            length,
            channels,
        )
    }
}

/// Adds what a block has made onto the first, the last time divided by the blocks.
pub open spec fn average_steps(block: int, count: usize) -> Seq<AudioStep> {
    if block == 0 {
        Seq::empty()
    } else {
        seq![
            AudioStep::Add {
                output: Signal::Signal,
                first: Signal::Signal,
                second: running_of(block),
                count,
                divisor: if block + 1 == BLOCKS {
                    BLOCKS
                } else {
                    1
                },
            },
        ]
    }
}

/// The first `count` blocks of a stage, averaged.
pub open spec fn blocks_steps(
    blocks: Seq<AmpParts>,
    stage: int,
    sequences: int,
    length: int,
    channels: int,
    count: int,
) -> Seq<AudioStep>
    decreases count,
{
    if count <= 0 {
        Seq::empty()
    } else {
        blocks_steps(blocks, stage, sequences, length, channels, count - 1) + units_steps(
            blocks[count - 1],
            stage,
            count - 1,
            sequences,
            length,
            channels,
            UNITS as int,
        ) + average_steps(count - 1, (sequences * length * channels) as usize)
    }
}

/// The first `count` stages.
pub open spec fn stages_steps(stages: Seq<StageParts>, sequences: int, frames: int, count: int) -> Seq<AudioStep>
    decreases count,
{
    if count <= 0 {
        Seq::empty()
    } else {
        stages_steps(stages, sequences, frames, count - 1) + upsample_steps(
            count - 1,
            sequences,
            length_after(frames, count - 1),
        ) + blocks_steps(
            stages[count - 1].blocks,
            count - 1,
            sequences,
            length_after(frames, count),
            stages[count - 1].upsample.outputs as int,
            BLOCKS as int,
        )
    }
}

/// Every launch of a decode call.
pub open spec fn decode_steps(parts: DecoderParts, sequences: int, frames: int) -> Seq<AudioStep> {
    let length = length_after(frames, STAGES as int);
    convolve_steps(
        AudioLayer::InputProjection,
        parts.input_projection,
        1,
        Signal::Latent,
        Signal::First,
        sequences,
        frames,
    ) + convolve_steps(AudioLayer::Pre, parts.pre, 1, Signal::First, Signal::Signal, sequences, frames) + stages_steps(
        parts.stages,
        sequences,
        frames,
        STAGES as int,
    ) + seq![
        AudioStep::Activate {
            activation: AudioActivation::Post,
            input: Signal::Signal,
            output: Signal::First,
            length: length as usize,
        },
    ] + convolve_steps(AudioLayer::Post, parts.post, 1, Signal::First, Signal::Output, sequences, length) + seq![
        AudioStep::Clamp { count: (sequences * length) as usize },
    ]
}

/// Whether the convolutions have the kernel sizes of the vocoder, and those at the edges have taps.
pub open spec fn has_kernels(parts: DecoderParts) -> bool {
    &&& parts.input_projection.kernel >= 1
    &&& parts.pre.kernel >= 1
    &&& parts.post.kernel >= 1
    &&& parts.stages.len() == STAGES
    &&& forall|i: int| 0 <= i < STAGES ==> stage_has_kernels(#[trigger] parts.stages[i], i)
}

pub open spec fn stage_has_kernels(stage: StageParts, index: int) -> bool {
    &&& stage.upsample.kernel == kernel_of(index)
    &&& stage.blocks.len() == BLOCKS
    &&& forall|i: int| 0 <= i < BLOCKS ==> block_has_kernels(#[trigger] stage.blocks[i], i)
}

pub open spec fn block_has_kernels(block: AmpParts, index: int) -> bool {
    &&& block.dilated.len() == UNITS
    &&& block.plain.len() == UNITS
    &&& block.activations.len() == 2 * UNITS
    &&& all_have_kernel(block.dilated, block_kernel_of(index))
    &&& all_have_kernel(block.plain, block_kernel_of(index))
}

/// What is loaded has the kernel sizes of the vocoder.
pub proof fn a_loaded_decoder_has_its_kernels(file: Seq<TensorInfo>, prefix: Seq<char>)
    requires
        decoder_of(file, prefix) is Ok,
    ensures
        ({
            let parts = decoder_of(file, prefix)->Ok_0;
            &&& parts.stages.len() == STAGES
            &&& forall|i: int| 0 <= i < STAGES ==> stage_has_kernels(#[trigger] parts.stages[i], i)
            &&& forall|i: int|
                0 <= i < STAGES ==> {
                    &&& (#[trigger] parts.stages[i]).upsample.inputs == halved(parts.pre.outputs as int, i)
                    &&& parts.stages[i].upsample.outputs == halved(parts.pre.outputs as int, i + 1)
                }
        }),
{
    let parts = decoder_of(file, prefix)->Ok_0;
    let row = stage_row(file, prefix, parts.pre.outputs);
    checkpoint::parts_are_numbered(row, STAGES as int, 0);
    assert forall|i: int| 0 <= i < STAGES implies stage_has_kernels(#[trigger] parts.stages[i], i) && (
    parts.stages[i]).upsample.inputs == halved(parts.pre.outputs as int, i) && parts.stages[i].upsample.outputs == halved(
        parts.pre.outputs as int,
        i + 1,
    ) by {
        checkpoint::parts_are_numbered(row, STAGES as int, i);
        let blocks = amp_row(file, prefix, i);
        checkpoint::parts_are_numbered(blocks, BLOCKS as int, 0);
        let stage = parts.stages[i];
        assert forall|j: int| 0 <= j < BLOCKS implies block_has_kernels(#[trigger] stage.blocks[j], j) by {
            checkpoint::parts_are_numbered(blocks, BLOCKS as int, j);
            let name = checkpoint::numbered(prefix + "decoder.resblocks."@, (i * BLOCKS + j) as nat, ""@);
            checkpoint::parts_are_numbered(convolution_row(file, name + ".convs1."@), UNITS as int, 0);
            checkpoint::parts_are_numbered(convolution_row(file, name + ".convs2."@), UNITS as int, 0);
            checkpoint::parts_are_numbered(activation_row(file, name + ".activations."@), 2 * UNITS as int, 0);
        }
    }
}

/// Values of the widest signal of a sequence behind the first `stages` stages.
pub open spec fn signal_values(config: AudioDecoderConfig, stages: Seq<StageParts>, frames: int, count: int) -> int
    decreases count,
{
    if count <= 0 {
        frames * arithmetic::max(config.latent_features as int, config.initial_channels as int)
    } else {
        arithmetic::max(
            signal_values(config, stages, frames, count - 1),
            length_after(frames, count) * stages[count - 1].upsample.outputs,
        )
    }
}

/// Values of the widest columns of a sequence up to the first `stages` stages.
pub open spec fn column_values(config: AudioDecoderConfig, stages: Seq<StageParts>, frames: int, count: int) -> int
    decreases count,
{
    if count <= 0 {
        frames * EDGE_KERNEL * config.latent_features
    } else {
        let upsample = stages[count - 1].upsample;
        arithmetic::max(
            arithmetic::max(
                column_values(config, stages, frames, count - 1),
                length_after(frames, count - 1) * upsample.kernel * upsample.outputs,
            ),
            length_after(frames, count) * WIDEST_KERNEL * upsample.outputs,
        )
    }
}

/// Values of the widest columns of a sequence.
pub open spec fn all_column_values(config: AudioDecoderConfig, stages: Seq<StageParts>, frames: int) -> int {
    let count = stages.len() as int;
    let width = if count > 0 {
        stages[count - 1].upsample.outputs
    } else {
        config.initial_channels
    };
    arithmetic::max(
        column_values(config, stages, frames, count),
        length_after(frames, count) * EDGE_KERNEL * width,
    )
}

/// Buffers sized for the longest signal of one decode call.
#[derive(Clone, Copy, Debug, PartialEq, Eq, Structural)]
pub struct AudioWorkspace {
    /// Bytes of each of the signals.
    pub signal: usize,
    pub columns: usize,
}

/// How a latent is decoded.
pub struct AudioDecoding {
    pub sequences: usize,
    /// Samples per sequence.
    pub samples: usize,
    pub workspace: AudioWorkspace,
    pub steps: Vec<AudioStep>,
}

/// Whether the values of a decode call can be counted.
pub open spec fn is_decodable(decoder: CudaAudioDecoder, sequences: int, frames: int) -> bool {
    let stages = decoder@.stages;
    &&& signal_values(decoder.config, stages, frames, STAGES as int) <= usize::MAX
    &&& all_column_values(decoder.config, stages, frames) <= usize::MAX
    &&& sequences * signal_values(decoder.config, stages, frames, STAGES as int) * 4 <= usize::MAX
    &&& sequences * all_column_values(decoder.config, stages, frames) * 4 <= usize::MAX
    &&& length_after(frames, STAGES as int) * WIDEST_KERNEL <= usize::MAX
    &&& sequences * length_after(frames, STAGES as int) * 4 <= usize::MAX
}

/// What a latent is refused for.
pub open spec fn latent_refusal(config: AudioDecoderConfig, shape: Seq<usize>) -> Option<Seq<char>> {
    if shape.len() != 3 {
        Some("latent shape "@ + text::listed(shape) + " is not [channels, stereo channels, frames]"@)
    } else if shape[0] != config.latent_channels || shape[2] == 0 {
        Some("latent shape "@ + text::listed(shape) + " does not match the decoder"@)
    } else {
        None
    }
}

proof fn lengths_grow(frames: int, stages: int, all: int)
    requires
        0 <= frames,
        0 <= stages <= all,
    ensures
        frames <= length_after(frames, stages) <= length_after(frames, all),
{
    samples_grow(stages, all);
    let (one, other) = (samples_after(stages), samples_after(all));
    assert(frames <= frames * one <= frames * other) by (nonlinear_arith)
        requires
            1 <= one <= other,
            0 <= frames,
    ;
}

proof fn a_length_is_the_next(frames: int, stage: int)
    requires
        0 <= stage,
    ensures
        length_after(frames, stage + 1) == length_after(frames, stage) * rate_of(stage),
{
    assert(frames * (samples_after(stage) * rate_of(stage)) == frames * samples_after(stage) * rate_of(stage))
        by (nonlinear_arith);
}

proof fn sizes_grow(config: AudioDecoderConfig, stages: Seq<StageParts>, frames: int, count: int, all: int)
    requires
        0 <= frames,
        0 <= count <= all,
    ensures
        signal_values(config, stages, frames, count) <= signal_values(config, stages, frames, all),
        column_values(config, stages, frames, count) <= column_values(config, stages, frames, all),
    decreases all,
{
    if count < all {
        sizes_grow(config, stages, frames, count, all - 1);
    }
}

impl CudaAudioDecoder {
    fn workspace(&self, sequences: usize, frames: usize) -> (workspace: AudioWorkspace)
        requires
            is_decodable(*self, sequences as int, frames as int),
            self@.stages.len() == STAGES,
            has_kernels(self@),
        ensures
            workspace.signal == sequences * signal_values(
                self.config,
                self@.stages,
                frames as int,
                STAGES as int,
            ) * 4,
            workspace.columns == sequences * all_column_values(self.config, self@.stages, frames as int) * 4,
    {
        let config = self.config;
        let ghost stages = self@.stages;
        proof {
            sizes_grow(config, stages, frames as int, 0, STAGES as int);
            lengths_grow(frames as int, 0, STAGES as int);
            edges_are_countable(config, frames as int);
        }
        let mut signal: usize = frames * arithmetic::greatest(config.latent_features, config.initial_channels);
        let mut columns: usize = frames * EDGE_KERNEL * config.latent_features;
        let mut length: usize = frames;
        let mut width: usize = config.initial_channels;
        for index in 0..STAGES
            invariant
                is_decodable(*self, sequences as int, frames as int),
                stages == self@.stages,
                stages.len() == STAGES,
                has_kernels(self@),
                config == self.config,
                length == length_after(frames as int, index as int),
                signal == signal_values(config, stages, frames as int, index as int),
                columns == column_values(config, stages, frames as int, index as int),
                index > 0 ==> width == stages[index - 1].upsample.outputs,
        {
            let upsample = self.stages[index].upsample;
            proof {
                assert(stages[index as int] == self.stages@[index as int]@);
                assert(stage_has_kernels(stages[index as int], index as int));
                sizes_grow(config, stages, frames as int, index + 1, STAGES as int);
                lengths_grow(frames as int, index as int, STAGES as int);
                lengths_grow(frames as int, index + 1, STAGES as int);
                lines_are_countable(length as int, upsample.kernel as int);
                a_length_is_the_next(frames as int, index as int);
                products_are_countable(length as int, upsample.kernel as int, upsample.outputs as int);
                products_are_countable(length * rate_of(index as int), 11, upsample.outputs as int);
            }
            columns = arithmetic::greatest(columns, length * upsample.kernel * upsample.outputs);
            length = length * rate(index);
            width = upsample.outputs;
            signal = arithmetic::greatest(signal, length * width);
            columns = arithmetic::greatest(columns, length * WIDEST_KERNEL * width);
        }
        proof {
            products_are_countable(length as int, 7, width as int);
            counts_are_scaled(sequences as int, signal as int);
        }
        columns = arithmetic::greatest(columns, length * EDGE_KERNEL * width);
        proof {
            counts_are_scaled(sequences as int, columns as int);
        }
        AudioWorkspace { signal: sequences * signal * 4, columns: sequences * columns * 4 }
    }
}

proof fn edges_are_countable(config: AudioDecoderConfig, frames: int)
    requires
        frames >= 0,
    ensures
        0 <= frames * arithmetic::max(config.latent_features as int, config.initial_channels as int),
        0 <= frames * EDGE_KERNEL,
        0 <= frames * EDGE_KERNEL * config.latent_features,
{
    products_are_countable(frames, 7, config.latent_features as int);
    assert(0 <= frames * arithmetic::max(config.latent_features as int, config.initial_channels as int))
        by (nonlinear_arith)
        requires
            frames >= 0,
            arithmetic::max(config.latent_features as int, config.initial_channels as int) >= 0,
    ;
}

proof fn lines_are_countable(length: int, kernel: int)
    requires
        0 <= length,
        1 <= kernel <= WIDEST_KERNEL,
    ensures
        length * kernel <= length * WIDEST_KERNEL,
{
    assert(length * kernel <= length * WIDEST_KERNEL) by (nonlinear_arith)
        requires
            0 <= length,
            kernel <= WIDEST_KERNEL,
    ;
}

proof fn products_are_countable(length: int, kernel: int, width: int)
    requires
        0 <= length,
        1 <= kernel,
        0 <= width,
    ensures
        0 <= length * kernel,
        0 <= length * width <= length * kernel * width,
{
    assert(0 <= length * kernel) by (nonlinear_arith)
        requires
            0 <= length,
            1 <= kernel,
    ;
    assert(0 <= length * width <= length * kernel * width) by (nonlinear_arith)
        requires
            0 <= length,
            1 <= kernel,
            0 <= width,
    ;
}

proof fn counts_are_scaled(sequences: int, values: int)
    requires
        0 <= sequences,
        0 <= values,
    ensures
        0 <= sequences * values,
{
    assert(0 <= sequences * values) by (nonlinear_arith)
        requires
            0 <= sequences,
            0 <= values,
    ;
}

fn upsample(index: usize, sequences: usize, length: usize, steps: &mut Vec<AudioStep>)
    requires
        0 < length,
        length * rate_of(index as int) <= usize::MAX,
        sequences * length <= usize::MAX,
    ensures
        final(steps)@ == old(steps)@ + upsample_steps(index as int, sequences as int, length as int),
{
    let ghost before = steps@;
    let kernel: usize = kernel(index);
    let rate: usize = rate(index);
    let padding: usize = (kernel - rate) / 2;
    proof {
        a_stage_multiplies_the_samples(length as int, index as int);
        assert((length - 1) * rate <= length * rate) by (nonlinear_arith)
            requires
                rate >= 0,
                length >= 1,
        ;
    }
    let output_length: usize = (length - 1) * rate + (kernel - 2 * padding);
    steps.push(
        AudioStep::Product {
            layer: AudioLayer::Upsample { stage: index },
            input: Signal::Signal,
            output: Signal::Columns,
            rows: sequences * length,
        },
    );
    steps.push(AudioStep::Gather { stage: index, rate, padding, length, output_length });
    assert(steps@ =~= before + upsample_steps(index as int, sequences as int, length as int));
}

fn unit(
    amp: &AmpBlock,
    stage: usize,
    block: usize,
    unit: usize,
    sequences: usize,
    length: usize,
    channels: usize,
    steps: &mut Vec<AudioStep>,
)
    requires
        unit < UNITS,
        block < BLOCKS,
        block_has_kernels(amp@, block as int),
        sequences * length <= usize::MAX,
        sequences * length * channels <= usize::MAX,
    ensures
        final(steps)@ == old(steps)@ + unit_steps(
            amp@,
            stage as int,
            block as int,
            unit as int,
            sequences as int,
            length as int,
            channels as int,
        ),
{
    let ghost before = steps@;
    let running = if block == 0 {
        Signal::Signal
    } else {
        Signal::Running
    };
    let source = if unit == 0 {
        Signal::Upsampled
    } else {
        running
    };
    let dilation: usize = dilation(unit);
    proof {
        let (one, other) = (amp@.dilated[unit as int], amp@.plain[unit as int]);
        assert(one.kernel == block_kernel_of(block as int));
        assert(other.kernel == block_kernel_of(block as int));
        assert(dilation * (one.kernel - 1) <= 50) by (nonlinear_arith)
            requires
                0 <= dilation <= 5,
                1 <= one.kernel <= 11,
        ;
    }
    steps.push(
        AudioStep::Activate {
            activation: AudioActivation::Block { stage, block, index: 2 * unit },
            input: source,
            output: Signal::First,
            length,
        },
    );
    convolve(
        AudioLayer::Dilated { stage, block, unit },
        &amp.dilated[unit],
        dilation,
        Signal::First,
        Signal::Second,
        sequences,
        length,
        steps,
    );
    steps.push(
        AudioStep::Activate {
            activation: AudioActivation::Block { stage, block, index: 2 * unit + 1 },
            input: Signal::Second,
            output: Signal::First,
            length,
        },
    );
    convolve(
        AudioLayer::Plain { stage, block, unit },
        &amp.plain[unit],
        1,
        Signal::First,
        Signal::Second,
        sequences,
        length,
        steps,
    );
    steps.push(
        AudioStep::Add {
            output: running,
            first: Signal::Second,
            second: source,
            count: sequences * length * channels,
            divisor: 1,
        },
    );
    assert(steps@ =~= before + unit_steps(
        amp@,
        stage as int,
        block as int,
        unit as int,
        sequences as int,
        length as int,
        channels as int,
    ));
}

/// Averages the three blocks of one stage over what it has upsampled.
fn average(
    blocks: &Vec<AmpBlock>,
    stage: usize,
    sequences: usize,
    length: usize,
    channels: usize,
    steps: &mut Vec<AudioStep>,
)
    requires
        blocks@.len() == BLOCKS,
        forall|i: int| 0 <= i < BLOCKS ==> block_has_kernels((#[trigger] blocks@[i])@, i),
        sequences * length <= usize::MAX,
        sequences * length * channels <= usize::MAX,
    ensures
        final(steps)@ == old(steps)@ + blocks_steps(
            block_parts(blocks@),
            stage as int,
            sequences as int,
            length as int,
            channels as int,
            BLOCKS as int,
        ),
{
    let ghost before = steps@;
    let ghost parts = block_parts(blocks@);
    assert(before + Seq::<AudioStep>::empty() =~= before);
    for block in 0..BLOCKS
        invariant
            parts == block_parts(blocks@),
            blocks@.len() == BLOCKS,
            forall|i: int| 0 <= i < BLOCKS ==> block_has_kernels((#[trigger] blocks@[i])@, i),
            sequences * length <= usize::MAX,
            sequences * length * channels <= usize::MAX,
            steps@ == before + blocks_steps(
                parts,
                stage as int,
                sequences as int,
                length as int,
                channels as int,
                block as int,
            ),
    {
        let ghost so_far = steps@;
        assert(so_far + Seq::<AudioStep>::empty() =~= so_far);
        assert(parts[block as int] == blocks@[block as int]@);
        for index in 0..UNITS
            invariant
                block < BLOCKS,
                blocks@.len() == BLOCKS,
                block_has_kernels(blocks@[block as int]@, block as int),
                sequences * length <= usize::MAX,
                sequences * length * channels <= usize::MAX,
                steps@ == so_far + units_steps(
                    blocks@[block as int]@,
                    stage as int,
                    block as int,
                    sequences as int,
                    length as int,
                    channels as int,
                    index as int,
                ),
        {
            let ghost now = steps@;
            unit(&blocks[block], stage, block, index, sequences, length, channels, steps);
            assert(steps@ =~= so_far + units_steps(
                blocks@[block as int]@,
                stage as int,
                block as int,
                sequences as int,
                length as int,
                channels as int,
                index + 1,
            ));
        }
        let count: usize = sequences * length * channels;
        if block > 0 {
            let divisor: usize = if block + 1 == BLOCKS {
                BLOCKS
            } else {
                1
            };
            steps.push(
                AudioStep::Add {
                    output: Signal::Signal,
                    first: Signal::Signal,
                    second: Signal::Running,
                    count,
                    divisor,
                },
            );
        }
        assert(steps@ =~= before + blocks_steps(
            parts,
            stage as int,
            sequences as int,
            length as int,
            channels as int,
            block + 1,
        ));
    }
}

/// The values of a stage are no more than the buffers are made for.
proof fn a_stage_is_countable(decoder: CudaAudioDecoder, sequences: int, frames: int, stage: int)
    requires
        is_decodable(decoder, sequences, frames),
        decoder@.stages.len() == STAGES,
        0 <= sequences,
        0 < frames,
        0 <= stage < STAGES,
    ensures
        0 < length_after(frames, stage),
        length_after(frames, stage) * rate_of(stage) == length_after(frames, stage + 1),
        length_after(frames, stage + 1) <= length_after(frames, STAGES as int) <= usize::MAX,
        0 <= sequences * length_after(frames, stage) <= sequences * length_after(frames, stage + 1) <= sequences
            * length_after(frames, STAGES as int) <= usize::MAX,
        0 <= sequences * length_after(frames, stage + 1) * decoder@.stages[stage].upsample.outputs <= usize::MAX,
{
    let stages = decoder@.stages;
    lengths_grow(frames, stage, stage + 1);
    lengths_grow(frames, stage + 1, STAGES as int);
    a_length_is_the_next(frames, stage);
    sizes_grow(decoder.config, stages, frames, stage + 1, STAGES as int);
    let (one, two, last) = (
        length_after(frames, stage),
        length_after(frames, stage + 1),
        length_after(frames, STAGES as int),
    );
    assert(0 <= sequences * one <= sequences * two <= sequences * last) by (nonlinear_arith)
        requires
            0 <= sequences,
            0 <= one <= two <= last,
    ;
    let outputs = stages[stage].upsample.outputs as int;
    let widest = signal_values(decoder.config, stages, frames, STAGES as int);
    assert(two * outputs <= widest);
    assert(0 <= sequences * two * outputs <= sequences * widest) by (nonlinear_arith)
        requires
            0 <= sequences,
            0 <= two,
            0 <= outputs,
            two * outputs <= widest,
    ;
}

impl CudaAudioDecoder {
    /// How a normalized latent `[latent channels, stereo channels, frames]` decodes into waveforms
    /// `[stereo channels, frames × 800]` in [−1, 1] at 32 kHz, or why it does not.
    pub fn decode(&self, shape: &Vec<usize>) -> (decoding: Result<AudioDecoding, Error>)
        requires
            has_kernels(self@),
            latent_refusal(self.config, shape@) is None ==> is_decodable(*self, shape@[1] as int, shape@[2] as int),
        ensures
            match latent_refusal(self.config, shape@) {
                Some(words) => decoding matches Err(error) && error.says(words),
                None => {
                    let (sequences, frames) = (shape@[1] as int, shape@[2] as int);
                    &&& decoding matches Ok(decoding)
                    &&& decoding.sequences == sequences
                    &&& decoding.samples == frames * 800
                    &&& decoding.workspace.signal == sequences * signal_values(
                        self.config,
                        self@.stages,
                        frames,
                        STAGES as int,
                    ) * 4
                    &&& decoding.workspace.columns == sequences * all_column_values(
                        self.config,
                        self@.stages,
                        frames,
                    ) * 4
                    &&& decoding.steps@ == decode_steps(self@, sequences, frames)
                },
            },
    {
        if shape.len() != 3 {
            let mut message = String::from_str("latent shape ");
            text::push_list(&mut message, shape);
            message.append(" is not [channels, stereo channels, frames]");
            return Err(Error::Model(message));
        }
        let sequences: usize = shape[1];
        let frames: usize = shape[2];
        if shape[0] != self.config.latent_channels || frames == 0 {
            let mut message = String::from_str("latent shape ");
            text::push_list(&mut message, shape);
            message.append(" does not match the decoder");
            return Err(Error::Model(message));
        }
        let workspace = self.workspace(sequences, frames);
        proof {
            a_stage_is_countable(*self, sequences as int, frames as int, 0);
            a_stage_is_countable(*self, sequences as int, frames as int, 6);
            a_latent_frame_is_800_samples();
        }
        let mut steps: Vec<AudioStep> = Vec::new();
        convolve(
            AudioLayer::InputProjection,
            &self.input_projection,
            1,
            Signal::Latent,
            Signal::First,
            sequences,
            frames,
            &mut steps,
        );
        convolve(AudioLayer::Pre, &self.pre, 1, Signal::First, Signal::Signal, sequences, frames, &mut steps);
        let ghost start = steps@;
        let ghost parts = self@.stages;
        let mut length: usize = frames;
        assert(start + Seq::<AudioStep>::empty() =~= start);
        for index in 0..STAGES
            invariant
                frames > 0,
                parts == self@.stages,
                has_kernels(self@),
                is_decodable(*self, sequences as int, frames as int),
                length == length_after(frames as int, index as int),
                steps@ == start + stages_steps(parts, sequences as int, frames as int, index as int),
        {
            let ghost before = steps@;
            proof {
                a_stage_is_countable(*self, sequences as int, frames as int, index as int);
                assert(parts[index as int] == self.stages@[index as int]@);
                assert(stage_has_kernels(parts[index as int], index as int));
                let blocks = self.stages@[index as int].blocks@;
                assert forall|i: int| 0 <= i < BLOCKS implies block_has_kernels((#[trigger] blocks[i])@, i) by {
                    assert(block_parts(blocks)[i] == blocks[i]@);
                }
            }
            upsample(index, sequences, length, &mut steps);
            length = length * rate(index);
            let channels: usize = self.stages[index].upsample.outputs;
            average(&self.stages[index].blocks, index, sequences, length, channels, &mut steps);
            assert(steps@ =~= start + stages_steps(parts, sequences as int, frames as int, index + 1));
        }
        steps.push(
            AudioStep::Activate {
                activation: AudioActivation::Post,
                input: Signal::Signal,
                output: Signal::First,
                length,
            },
        );
        convolve(AudioLayer::Post, &self.post, 1, Signal::First, Signal::Output, sequences, length, &mut steps);
        steps.push(AudioStep::Clamp { count: sequences * length });
        assert(steps@ =~= decode_steps(self@, sequences as int, frames as int));
        Ok(AudioDecoding { sequences, samples: length, workspace, steps })
    }
}

/// A convolution of a decoder.
pub open spec fn layer_of(parts: DecoderParts, layer: AudioLayer) -> Convolution {
    match layer {
        AudioLayer::InputProjection => parts.input_projection,
        AudioLayer::Pre => parts.pre,
        AudioLayer::Upsample { stage } => parts.stages[stage as int].upsample,
        AudioLayer::Dilated { stage, block, unit } => parts.stages[stage as int].blocks[block as int].dilated[unit as int],
        AudioLayer::Plain { stage, block, unit } => parts.stages[stage as int].blocks[block as int].plain[unit as int],
        AudioLayer::Post => parts.post,
    }
}

/// The channels of an activation of a decoder.
pub open spec fn channels_of(parts: DecoderParts, activation: AudioActivation) -> usize {
    match activation {
        AudioActivation::Block { stage, block, index } => parts.stages[stage as int].blocks[block as int].activations[index as int],
        AudioActivation::Post => parts.post_activation,
    }
}

/// Whether a decoder has a layer.
pub open spec fn is_there(layer: AudioLayer) -> bool {
    match layer {
        AudioLayer::InputProjection | AudioLayer::Pre | AudioLayer::Post => true,
        AudioLayer::Upsample { stage } => stage < STAGES,
        AudioLayer::Dilated { stage, block, unit } | AudioLayer::Plain { stage, block, unit } => {
            stage < STAGES && block < BLOCKS && unit < UNITS
        },
    }
}

/// Whether a decoder has an activation.
pub open spec fn is_active(activation: AudioActivation) -> bool {
    match activation {
        AudioActivation::Block { stage, block, index } => stage < STAGES && block < BLOCKS && index < 2 * UNITS,
        AudioActivation::Post => true,
    }
}

/// The name of a block in a file.
spec fn whole_block(prefix: Seq<char>, stage: usize, block: usize) -> Seq<char> {
    checkpoint::numbered(prefix + "decoder.resblocks."@, (stage * BLOCKS + block) as nat, ""@)
}

proof fn a_block_is_in_its_file(file: Seq<TensorInfo>, prefix: Seq<char>, stage: usize, block: usize)
    requires
        decoder_of(file, prefix) is Ok,
        stage < STAGES,
        block < BLOCKS,
    ensures
        amp_of(file, whole_block(prefix, stage, block), block_kernel_of(block as int)) == Ok::<AmpParts, Seq<char>>(
            decoder_of(file, prefix)->Ok_0.stages[stage as int].blocks[block as int],
        ),
{
    let row = stage_row(file, prefix, decoder_of(file, prefix)->Ok_0.pre.outputs);
    checkpoint::parts_are_numbered(row, STAGES as int, stage as int);
    checkpoint::parts_are_numbered(amp_row(file, prefix, stage as int), BLOCKS as int, block as int);
}

proof fn a_unit_is_in_its_file(file: Seq<TensorInfo>, name: Seq<char>, kernel: usize, unit: int)
    requires
        amp_of(file, name, kernel) is Ok,
        0 <= unit < UNITS,
    ensures
        Convolution::of(file, checkpoint::numbered(name + ".convs1."@, unit as nat, ""@), true) == Ok::<
            Convolution,
            Seq<char>,
        >(amp_of(file, name, kernel)->Ok_0.dilated[unit]),
        Convolution::of(file, checkpoint::numbered(name + ".convs2."@, unit as nat, ""@), true) == Ok::<
            Convolution,
            Seq<char>,
        >(amp_of(file, name, kernel)->Ok_0.plain[unit]),
{
    checkpoint::parts_are_numbered(convolution_row(file, name + ".convs1."@), UNITS as int, unit);
    checkpoint::parts_are_numbered(convolution_row(file, name + ".convs2."@), UNITS as int, unit);
}

/// The whole name of a layer that is not one of the decoder's edges.
proof fn a_name_is_whole(prefix: Seq<char>, layer: AudioLayer)
    ensures
        layer matches AudioLayer::Upsample { stage } ==> prefix + layer.letters() == checkpoint::numbered(
            prefix + "decoder.ups."@,
            stage as nat,
            ".0"@,
        ),
        layer matches AudioLayer::Dilated { stage, block, unit } ==> prefix + layer.letters() == checkpoint::numbered(
            whole_block(prefix, stage, block) + ".convs1."@,
            unit as nat,
            ""@,
        ),
        layer matches AudioLayer::Plain { stage, block, unit } ==> prefix + layer.letters() == checkpoint::numbered(
            whole_block(prefix, stage, block) + ".convs2."@,
            unit as nat,
            ""@,
        ),
{
    match layer {
        AudioLayer::Upsample { stage } => {
            assert(prefix + layer.letters() =~= checkpoint::numbered(prefix + "decoder.ups."@, stage as nat, ".0"@));
        },
        AudioLayer::Dilated { stage, block, unit } => {
            let name = whole_block(prefix, stage, block);
            assert(prefix + layer.letters() =~= checkpoint::numbered(name + ".convs1."@, unit as nat, ""@));
        },
        AudioLayer::Plain { stage, block, unit } => {
            let name = whole_block(prefix, stage, block);
            assert(prefix + layer.letters() =~= checkpoint::numbered(name + ".convs2."@, unit as nat, ""@));
        },
        _ => {},
    }
}

proof fn an_upsampling_is_in_its_file(file: Seq<TensorInfo>, prefix: Seq<char>, stage: usize)
    requires
        decoder_of(file, prefix) is Ok,
        stage < STAGES,
    ensures
        Convolution::transposed_of(file, checkpoint::numbered(prefix + "decoder.ups."@, stage as nat, ".0"@)) == Ok::<
            Convolution,
            Seq<char>,
        >(decoder_of(file, prefix)->Ok_0.stages[stage as int].upsample),
{
    let row = stage_row(file, prefix, decoder_of(file, prefix)->Ok_0.pre.outputs);
    checkpoint::parts_are_numbered(row, STAGES as int, stage as int);
}

/// Each layer that a loaded decoder has is the one of its name in the file.
pub proof fn a_layer_is_in_its_file(file: Seq<TensorInfo>, prefix: Seq<char>, layer: AudioLayer)
    requires
        decoder_of(file, prefix) is Ok,
        is_there(layer),
    ensures
        (if layer is Upsample {
            Convolution::transposed_of(file, prefix + layer.letters())
        } else {
            Convolution::of(file, prefix + layer.letters(), layer !is Post)
        }) == Ok::<Convolution, Seq<char>>(layer_of(decoder_of(file, prefix)->Ok_0, layer)),
{
    a_name_is_whole(prefix, layer);
    match layer {
        AudioLayer::Upsample { stage } => {
            an_upsampling_is_in_its_file(file, prefix, stage);
        },
        AudioLayer::Dilated { stage, block, unit } | AudioLayer::Plain { stage, block, unit } => {
            a_block_is_in_its_file(file, prefix, stage, block);
            let name = whole_block(prefix, stage, block);
            a_unit_is_in_its_file(file, name, block_kernel_of(block as int), unit as int);
        },
        _ => {},
    }
}

/// Each activation that a loaded decoder has is the one of its name in the file.
pub proof fn an_activation_is_in_its_file(file: Seq<TensorInfo>, prefix: Seq<char>, activation: AudioActivation)
    requires
        decoder_of(file, prefix) is Ok,
        is_active(activation),
    ensures
        activation_of(file, prefix + activation.letters()) == Ok::<usize, Seq<char>>(
            channels_of(decoder_of(file, prefix)->Ok_0, activation),
        ),
{
    if let AudioActivation::Block { stage, block, index } = activation {
        let name = whole_block(prefix, stage, block);
        a_block_is_in_its_file(file, prefix, stage, block);
        checkpoint::parts_are_numbered(activation_row(file, name + ".activations."@), 2 * UNITS as int, index as int);
        assert(prefix + activation.letters() =~= checkpoint::numbered(name + ".activations."@, index as nat, ""@));
    }
}

/// The channels that the stages leave.
pub open spec fn last_width(parts: DecoderParts) -> usize {
    parts.stages[parts.stages.len() - 1].upsample.outputs
}

/// Whether each layer takes what the one before it leaves.
pub open spec fn is_matched(decoder: CudaAudioDecoder) -> bool {
    let (parts, config) = (decoder@, decoder.config);
    &&& has_kernels(parts)
    &&& parts.input_projection.kernel == 1
    &&& parts.input_projection.inputs == config.latent_channels
    &&& parts.input_projection.outputs == config.latent_features
    &&& parts.pre.kernel <= EDGE_KERNEL
    &&& parts.pre.inputs == config.latent_features
    &&& parts.pre.outputs == config.initial_channels
    &&& forall|i: int| 0 <= i < STAGES ==> stage_is_matched(#[trigger] parts.stages[i], config.initial_channels, i)
    &&& parts.post_activation == last_width(parts)
    &&& parts.post.kernel <= EDGE_KERNEL
    &&& parts.post.inputs == last_width(parts)
    &&& parts.post.outputs == 1
}

pub open spec fn stage_is_matched(stage: StageParts, initial: usize, index: int) -> bool {
    &&& stage.upsample.inputs == halved(initial as int, index)
    &&& stage.upsample.outputs == halved(initial as int, index + 1)
    &&& forall|i: int| 0 <= i < BLOCKS ==> block_is_matched(#[trigger] stage.blocks[i], stage.upsample.outputs)
}

pub open spec fn block_is_matched(block: AmpParts, channels: usize) -> bool {
    &&& forall|i: int|
        0 <= i < UNITS ==> (#[trigger] block.dilated[i]).inputs == channels && block.dilated[i].outputs == channels
    &&& forall|i: int|
        0 <= i < UNITS ==> (#[trigger] block.plain[i]).inputs == channels && block.plain[i].outputs == channels
    &&& forall|i: int| 0 <= i < 2 * UNITS ==> (#[trigger] block.activations[i]) == channels
}

/// Values that a buffer of a decode call holds.
pub open spec fn capacity(decoder: CudaAudioDecoder, sequences: int, frames: int, signal: Signal) -> int {
    match signal {
        Signal::Latent => sequences * frames * decoder.config.latent_channels,
        Signal::Columns => sequences * all_column_values(decoder.config, decoder@.stages, frames),
        Signal::Output => sequences * length_after(frames, STAGES as int),
        _ => sequences * signal_values(decoder.config, decoder@.stages, frames, STAGES as int),
    }
}

/// Whether the decoder has what a launch reads, and the launch stays in its buffers.
pub open spec fn step_fits(decoder: CudaAudioDecoder, sequences: int, frames: int, step: AudioStep) -> bool {
    let parts = decoder@;
    let holds = |signal: Signal, values: int| values <= capacity(decoder, sequences, frames, signal);
    match step {
        AudioStep::Columns { layer, dilation, padding, input, length } => {
            let convolution = layer_of(parts, layer);
            &&& is_there(layer)
            &&& holds(input, sequences * length * convolution.inputs)
            &&& holds(Signal::Columns, sequences * length * convolution.kernel * convolution.inputs)
        },
        AudioStep::Product { layer, input, output, rows } => {
            let convolution = layer_of(parts, layer);
            let (wide, made) = if layer is Upsample {
                (convolution.inputs as int, convolution.kernel * convolution.outputs)
            } else if input == Signal::Columns {
                (convolution.kernel * convolution.inputs, convolution.outputs as int)
            } else {
                (convolution.inputs as int, convolution.outputs as int)
            };
            &&& is_there(layer)
            &&& holds(input, rows * wide)
            &&& holds(output, rows * made)
        },
        AudioStep::Gather { stage, rate, padding, length, output_length } => {
            let convolution = parts.stages[stage as int].upsample;
            &&& stage < STAGES
            &&& holds(Signal::Columns, sequences * length * (convolution.kernel * convolution.outputs))
            &&& holds(Signal::Upsampled, sequences * output_length * convolution.outputs)
        },
        AudioStep::Activate { activation, input, output, length } => {
            let count = sequences * length * channels_of(parts, activation);
            &&& is_active(activation)
            &&& holds(input, count)
            &&& holds(output, count)
        },
        AudioStep::Add { output, first, second, count, divisor } => {
            &&& holds(output, count as int)
            &&& holds(first, count as int)
            &&& holds(second, count as int)
        },
        AudioStep::Clamp { count } => holds(Signal::Output, count as int),
    }
}

spec fn steps_fit(decoder: CudaAudioDecoder, sequences: int, frames: int, steps: Seq<AudioStep>) -> bool {
    forall|i: int| 0 <= i < steps.len() ==> step_fits(decoder, sequences, frames, #[trigger] steps[i])
}

proof fn both_fit(decoder: CudaAudioDecoder, sequences: int, frames: int, one: Seq<AudioStep>, other: Seq<AudioStep>)
    requires
        steps_fit(decoder, sequences, frames, one),
        steps_fit(decoder, sequences, frames, other),
    ensures
        steps_fit(decoder, sequences, frames, one + other),
{
    let all = one + other;
    assert forall|i: int| 0 <= i < all.len() implies step_fits(decoder, sequences, frames, #[trigger] all[i]) by {
        if i < one.len() {
            assert(all[i] == one[i]);
        } else {
            assert(all[i] == other[i - one.len()]);
        }
    }
}

proof fn a_convolution_fits(
    decoder: CudaAudioDecoder,
    sequences: int,
    frames: int,
    layer: AudioLayer,
    dilation: usize,
    input: Signal,
    output: Signal,
    length: int,
)
    requires
        is_there(layer),
        layer !is Upsample,
        input != Signal::Columns,
        layer_of(decoder@, layer).kernel >= 1,
        0 <= length <= usize::MAX,
        0 <= sequences * length <= usize::MAX,
        sequences * length * layer_of(decoder@, layer).inputs <= capacity(decoder, sequences, frames, input),
        sequences * length * layer_of(decoder@, layer).outputs <= capacity(decoder, sequences, frames, output),
        layer_of(decoder@, layer).kernel == 1 || sequences * length * layer_of(decoder@, layer).kernel * layer_of(
            decoder@,
            layer,
        ).inputs <= capacity(decoder, sequences, frames, Signal::Columns),
    ensures
        steps_fit(
            decoder,
            sequences,
            frames,
            convolve_steps(layer, layer_of(decoder@, layer), dilation, input, output, sequences, length),
        ),
{
    let convolution = layer_of(decoder@, layer);
    let (rows, kernel, inputs) = (sequences * length, convolution.kernel as int, convolution.inputs as int);
    assert(rows * (kernel * inputs) == rows * kernel * inputs) by (nonlinear_arith);
    let steps = convolve_steps(layer, convolution, dilation, input, output, sequences, length);
    assert forall|i: int| 0 <= i < steps.len() implies step_fits(decoder, sequences, frames, #[trigger] steps[i]) by {
        if kernel != 1 && i == 0 {
            assert(steps[0] is Columns);
        }
    }
}

/// What a stage needs of the buffers.
proof fn a_stage_has_room(decoder: CudaAudioDecoder, sequences: int, frames: int, stage: int)
    requires
        is_matched(decoder),
        is_decodable(decoder, sequences, frames),
        0 <= sequences,
        0 < frames,
        0 <= stage < STAGES,
    ensures
        ({
            let upsample = decoder@.stages[stage].upsample;
            let (before, after) = (
                sequences * length_after(frames, stage),
                sequences * length_after(frames, stage + 1),
            );
            let (signal, columns) = (
                capacity(decoder, sequences, frames, Signal::Signal),
                capacity(decoder, sequences, frames, Signal::Columns),
            );
            &&& before * upsample.inputs <= signal
            &&& before * (upsample.kernel * upsample.outputs) <= columns
            &&& after * upsample.outputs <= signal
            &&& forall|kernel: int|
                1 <= kernel <= WIDEST_KERNEL ==> #[trigger] (after * kernel) * upsample.outputs <= columns
        }),
{
    let (config, stages) = (decoder.config, decoder@.stages);
    let upsample = stages[stage].upsample;
    let (kernel, outputs, inputs) = (upsample.kernel as int, upsample.outputs as int, upsample.inputs as int);
    let (one, two) = (length_after(frames, stage), length_after(frames, stage + 1));
    let (signal, columns) = (
        signal_values(config, stages, frames, STAGES as int),
        all_column_values(config, stages, frames),
    );
    lengths_grow(frames, stage, stage + 1);
    sizes_grow(config, stages, frames, stage, STAGES as int);
    sizes_grow(config, stages, frames, stage + 1, STAGES as int);
    assert(stage_is_matched(stages[stage], config.initial_channels, stage));
    if stage > 0 {
        assert(stage_is_matched(stages[stage - 1], config.initial_channels, stage - 1));
    } else {
        let most = arithmetic::max(config.latent_features as int, config.initial_channels as int);
        assert(samples_after(0) == 1);
        assert(frames * inputs <= frames * most) by (nonlinear_arith)
            requires
                inputs <= most,
                0 < frames,
        ;
    }
    assert(one * inputs <= signal);
    assert(one * kernel * outputs <= columns);
    assert(two * outputs <= signal);
    assert(two * WIDEST_KERNEL * outputs <= columns);
    assert(sequences * one * inputs <= sequences * signal) by (nonlinear_arith)
        requires
            0 <= sequences,
            one * inputs <= signal,
    ;
    assert(sequences * one * (kernel * outputs) <= sequences * columns) by (nonlinear_arith)
        requires
            0 <= sequences,
            one * kernel * outputs <= columns,
    ;
    assert(sequences * two * outputs <= sequences * signal) by (nonlinear_arith)
        requires
            0 <= sequences,
            two * outputs <= signal,
    ;
    assert forall|k: int| 1 <= k <= WIDEST_KERNEL implies #[trigger] ((sequences * two) * k) * outputs <= sequences
        * columns by {
        a_narrow_kernel_needs_less(sequences, two, k, outputs, columns);
    }
}

proof fn a_narrow_kernel_needs_less(sequences: int, length: int, kernel: int, outputs: int, columns: int)
    requires
        0 <= sequences,
        0 <= length,
        0 <= outputs,
        1 <= kernel <= WIDEST_KERNEL,
        length * WIDEST_KERNEL * outputs <= columns,
    ensures
        sequences * length * kernel * outputs <= sequences * columns,
{
    assert(length * kernel * outputs <= length * WIDEST_KERNEL * outputs) by (nonlinear_arith)
        requires
            0 <= length,
            0 <= outputs,
            kernel <= WIDEST_KERNEL,
    ;
    assert(sequences * length * kernel * outputs == sequences * (length * kernel * outputs)) by (nonlinear_arith);
    assert(sequences * (length * kernel * outputs) <= sequences * columns) by (nonlinear_arith)
        requires
            0 <= sequences,
            length * kernel * outputs <= columns,
    ;
}

proof fn a_unit_fits(decoder: CudaAudioDecoder, sequences: int, frames: int, stage: int, block: int, unit: int)
    requires
        is_matched(decoder),
        is_decodable(decoder, sequences, frames),
        0 <= sequences,
        0 < frames,
        0 <= stage < STAGES,
        0 <= block < BLOCKS,
        0 <= unit < UNITS,
    ensures
        steps_fit(
            decoder,
            sequences,
            frames,
            unit_steps(
                decoder@.stages[stage].blocks[block],
                stage,
                block,
                unit,
                sequences,
                length_after(frames, stage + 1),
                decoder@.stages[stage].upsample.outputs as int,
            ),
        ),
{
    let parts = decoder@.stages[stage].blocks[block];
    let channels = decoder@.stages[stage].upsample.outputs;
    let length = length_after(frames, stage + 1);
    let (s, b, u) = (stage as usize, block as usize, unit as usize);
    a_stage_has_room(decoder, sequences, frames, stage);
    a_stage_is_countable(decoder, sequences, frames, stage);
    assert(stage_is_matched(decoder@.stages[stage], decoder.config.initial_channels, stage));
    assert(stage_has_kernels(decoder@.stages[stage], stage));
    assert(block_is_matched(parts, channels));
    assert(block_has_kernels(parts, block));
    let (dilated, plain) = (
        AudioLayer::Dilated { stage: s, block: b, unit: u },
        AudioLayer::Plain { stage: s, block: b, unit: u },
    );
    assert(layer_of(decoder@, dilated) == parts.dilated[unit]);
    assert(layer_of(decoder@, plain) == parts.plain[unit]);
    let kernel = block_kernel_of(block) as int;
    assert((sequences * length * kernel) * channels <= capacity(decoder, sequences, frames, Signal::Columns));
    a_convolution_fits(
        decoder,
        sequences,
        frames,
        dilated,
        dilation_of(unit),
        Signal::First,
        Signal::Second,
        length,
    );
    a_convolution_fits(decoder, sequences, frames, plain, 1, Signal::First, Signal::Second, length);
    let source = if unit == 0 {
        Signal::Upsampled
    } else {
        running_of(block)
    };
    let one = seq![
        AudioStep::Activate {
            activation: AudioActivation::Block { stage: s, block: b, index: (2 * unit) as usize },
            input: source,
            output: Signal::First,
            length: length as usize,
        },
    ];
    let two = seq![
        AudioStep::Activate {
            activation: AudioActivation::Block { stage: s, block: b, index: (2 * unit + 1) as usize },
            input: Signal::Second,
            output: Signal::First,
            length: length as usize,
        },
    ];
    let three = seq![
        AudioStep::Add {
            output: running_of(block),
            first: Signal::Second,
            second: source,
            count: (sequences * length * channels) as usize,
            divisor: 1,
        },
    ];
    assert(parts.activations[2 * unit] == channels);
    assert(parts.activations[2 * unit + 1] == channels);
    assert(steps_fit(decoder, sequences, frames, one));
    assert(steps_fit(decoder, sequences, frames, two));
    assert(steps_fit(decoder, sequences, frames, three));
    let first = convolve_steps(
        dilated,
        parts.dilated[unit],
        dilation_of(unit),
        Signal::First,
        Signal::Second,
        sequences,
        length,
    );
    let second = convolve_steps(plain, parts.plain[unit], 1, Signal::First, Signal::Second, sequences, length);
    both_fit(decoder, sequences, frames, one, first);
    both_fit(decoder, sequences, frames, one + first, two);
    both_fit(decoder, sequences, frames, one + first + two, second);
    both_fit(decoder, sequences, frames, one + first + two + second, three);
}

proof fn units_fit(decoder: CudaAudioDecoder, sequences: int, frames: int, stage: int, block: int, units: int)
    requires
        is_matched(decoder),
        is_decodable(decoder, sequences, frames),
        0 <= sequences,
        0 < frames,
        0 <= stage < STAGES,
        0 <= block < BLOCKS,
        0 <= units <= UNITS,
    ensures
        steps_fit(
            decoder,
            sequences,
            frames,
            units_steps(
                decoder@.stages[stage].blocks[block],
                stage,
                block,
                sequences,
                length_after(frames, stage + 1),
                decoder@.stages[stage].upsample.outputs as int,
                units,
            ),
        ),
    decreases units,
{
    if units > 0 {
        let parts = decoder@.stages[stage].blocks[block];
        let (length, channels) = (
            length_after(frames, stage + 1),
            decoder@.stages[stage].upsample.outputs as int,
        );
        units_fit(decoder, sequences, frames, stage, block, units - 1);
        a_unit_fits(decoder, sequences, frames, stage, block, units - 1);
        both_fit(
            decoder,
            sequences,
            frames,
            units_steps(parts, stage, block, sequences, length, channels, units - 1),
            unit_steps(parts, stage, block, units - 1, sequences, length, channels),
        );
    }
}

proof fn blocks_fit(decoder: CudaAudioDecoder, sequences: int, frames: int, stage: int, count: int)
    requires
        is_matched(decoder),
        is_decodable(decoder, sequences, frames),
        0 <= sequences,
        0 < frames,
        0 <= stage < STAGES,
        0 <= count <= BLOCKS,
    ensures
        steps_fit(
            decoder,
            sequences,
            frames,
            blocks_steps(
                decoder@.stages[stage].blocks,
                stage,
                sequences,
                length_after(frames, stage + 1),
                decoder@.stages[stage].upsample.outputs as int,
                count,
            ),
        ),
    decreases count,
{
    if count > 0 {
        let blocks = decoder@.stages[stage].blocks;
        let (length, channels) = (
            length_after(frames, stage + 1),
            decoder@.stages[stage].upsample.outputs as int,
        );
        blocks_fit(decoder, sequences, frames, stage, count - 1);
        units_fit(decoder, sequences, frames, stage, count - 1, UNITS as int);
        a_stage_has_room(decoder, sequences, frames, stage);
        a_stage_is_countable(decoder, sequences, frames, stage);
        let before = blocks_steps(blocks, stage, sequences, length, channels, count - 1);
        let units = units_steps(blocks[count - 1], stage, count - 1, sequences, length, channels, UNITS as int);
        let average = average_steps(count - 1, (sequences * length * channels) as usize);
        assert(steps_fit(decoder, sequences, frames, average));
        both_fit(decoder, sequences, frames, before, units);
        both_fit(decoder, sequences, frames, before + units, average);
    }
}

proof fn stages_fit(decoder: CudaAudioDecoder, sequences: int, frames: int, count: int)
    requires
        is_matched(decoder),
        is_decodable(decoder, sequences, frames),
        0 <= sequences,
        0 < frames,
        0 <= count <= STAGES,
    ensures
        steps_fit(decoder, sequences, frames, stages_steps(decoder@.stages, sequences, frames, count)),
    decreases count,
{
    if count > 0 {
        let stage = count - 1;
        let stages = decoder@.stages;
        stages_fit(decoder, sequences, frames, stage);
        blocks_fit(decoder, sequences, frames, stage, BLOCKS as int);
        a_stage_has_room(decoder, sequences, frames, stage);
        a_stage_is_countable(decoder, sequences, frames, stage);
        let before = stages_steps(stages, sequences, frames, stage);
        let up = upsample_steps(stage, sequences, length_after(frames, stage));
        let blocks = blocks_steps(
            stages[stage].blocks,
            stage,
            sequences,
            length_after(frames, count),
            stages[stage].upsample.outputs as int,
            BLOCKS as int,
        );
        assert(steps_fit(decoder, sequences, frames, up)) by {
            assert(step_fits(decoder, sequences, frames, up[0]));
            assert(step_fits(decoder, sequences, frames, up[1]));
        }
        both_fit(decoder, sequences, frames, before, up);
        both_fit(decoder, sequences, frames, before + up, blocks);
    }
}

/// The decoder has what every launch of a decode call reads, and the launch stays in the buffers that are made for it,
/// where each layer takes what the one before it leaves.
pub proof fn a_decode_stays_in_its_workspace(decoder: CudaAudioDecoder, sequences: usize, frames: usize, step: int)
    requires
        is_matched(decoder),
        0 < frames,
        is_decodable(decoder, sequences as int, frames as int),
        0 <= step < decode_steps(decoder@, sequences as int, frames as int).len(),
    ensures
        step_fits(
            decoder,
            sequences as int,
            frames as int,
            decode_steps(decoder@, sequences as int, frames as int)[step],
        ),
{
    let (n, f) = (sequences as int, frames as int);
    let (parts, config) = (decoder@, decoder.config);
    let length = length_after(f, STAGES as int);
    let width = last_width(parts) as int;
    stages_fit(decoder, n, f, STAGES as int);
    a_stage_has_room(decoder, n, f, 0);
    a_stage_has_room(decoder, n, f, 6);
    a_stage_is_countable(decoder, n, f, 0);
    a_stage_is_countable(decoder, n, f, 6);
    assert(samples_after(0) == 1);
    assert(length_after(f, 0) == f);
    let (features, initial) = (config.latent_features as int, config.initial_channels as int);
    let (signal, columns) = (
        signal_values(config, parts.stages, f, STAGES as int),
        all_column_values(config, parts.stages, f),
    );
    sizes_grow(config, parts.stages, f, 0, STAGES as int);
    the_edges_have_room(n, f, features, initial, signal, columns, parts.pre.kernel as int);
    a_convolution_fits(decoder, n, f, AudioLayer::InputProjection, 1, Signal::Latent, Signal::First, f);
    a_convolution_fits(decoder, n, f, AudioLayer::Pre, 1, Signal::First, Signal::Signal, f);
    let kernel = parts.post.kernel as int;
    assert((n * length * kernel) * width <= capacity(decoder, n, f, Signal::Columns));
    a_convolution_fits(decoder, n, f, AudioLayer::Post, 1, Signal::First, Signal::Output, length);
    let projection = convolve_steps(
        AudioLayer::InputProjection,
        parts.input_projection,
        1,
        Signal::Latent,
        Signal::First,
        n,
        f,
    );
    let pre = convolve_steps(AudioLayer::Pre, parts.pre, 1, Signal::First, Signal::Signal, n, f);
    let stages = stages_steps(parts.stages, n, f, STAGES as int);
    let activate = seq![
        AudioStep::Activate {
            activation: AudioActivation::Post,
            input: Signal::Signal,
            output: Signal::First,
            length: length as usize,
        },
    ];
    let post = convolve_steps(AudioLayer::Post, parts.post, 1, Signal::First, Signal::Output, n, length);
    let clamp = seq![AudioStep::Clamp { count: (n * length) as usize }];
    assert(steps_fit(decoder, n, f, activate));
    assert(steps_fit(decoder, n, f, clamp));
    both_fit(decoder, n, f, projection, pre);
    both_fit(decoder, n, f, projection + pre, stages);
    both_fit(decoder, n, f, projection + pre + stages, activate);
    both_fit(decoder, n, f, projection + pre + stages + activate, post);
    both_fit(decoder, n, f, projection + pre + stages + activate + post, clamp);
}

proof fn the_edges_have_room(
    sequences: int,
    frames: int,
    features: int,
    initial: int,
    signal: int,
    columns: int,
    kernel: int,
)
    requires
        0 <= sequences,
        0 < frames,
        0 <= features,
        0 <= initial,
        1 <= kernel <= EDGE_KERNEL,
        frames * arithmetic::max(features, initial) <= signal,
        frames * EDGE_KERNEL * features <= columns,
    ensures
        sequences * frames * features <= sequences * signal,
        sequences * frames * initial <= sequences * signal,
        sequences * frames * kernel * features <= sequences * columns,
{
    let most = arithmetic::max(features, initial);
    assert(frames * features <= frames * most && frames * initial <= frames * most) by (nonlinear_arith)
        requires
            0 < frames,
            features <= most,
            initial <= most,
    ;
    assert(sequences * frames * features <= sequences * signal) by (nonlinear_arith)
        requires
            0 <= sequences,
            frames * features <= signal,
    ;
    assert(sequences * frames * initial <= sequences * signal) by (nonlinear_arith)
        requires
            0 <= sequences,
            frames * initial <= signal,
    ;
    assert(frames * kernel * features <= frames * EDGE_KERNEL * features) by (nonlinear_arith)
        requires
            0 < frames,
            0 <= features,
            kernel <= EDGE_KERNEL,
    ;
    assert(sequences * frames * kernel * features == sequences * (frames * kernel * features)) by (nonlinear_arith);
    assert(sequences * (frames * kernel * features) <= sequences * columns) by (nonlinear_arith)
        requires
            0 <= sequences,
            frames * kernel * features <= columns,
    ;
}

} // verus!
