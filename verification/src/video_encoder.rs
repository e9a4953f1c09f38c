//! Video VAE encoding on the GPU.
//!
//! The encoder is a convolutional network that runs tile by tile and clip by clip. Its convolutions are causal in time:
//! the taps read zero frames before a clip. A 3 × 3 kernel at stride one runs as one pass over its input, and the others
//! as GEMMs over im2col columns that are built a slice at a time.
use crate::arithmetic;
use crate::checkpoint;
use crate::model::Error;
use crate::text;
use vstd::prelude::*;

verus! {

pub const DEFAULT_TILE_SIZE: usize = 256;

pub const DEFAULT_TILE_OVERLAP_MIN: usize = 64;

/// Groups of a group norm.
pub const GROUPS: usize = 32;

/// Pixels of a latent pixel, along each side.
pub const SPATIAL_RATIO: usize = 16;

/// Frames of a group, latent frames it gives, and latent frames that are dropped from the end of the run.
pub const CLIP_LENGTH: usize = 17;

pub const CHUNK_TOKENS: usize = 5;

pub const TOKEN_DROP: usize = 3;

/// Channels the fused convolution stages at a time, which its inputs must be a multiple of.
pub const CONV_CHANNEL_CHUNK: usize = 32;

/// Latent channels. The encoder writes twice as many moments, the mean and the log variance.
pub const LATENT_CHANNELS: usize = 24;

/// Temporal stride of the downsamplings in their order. Their product is the latent's frames per token.
pub open spec fn time_stride_of(downsample: int) -> usize {
    if downsample == 1 || downsample == 2 {
        2
    } else {
        1
    }
}

fn time_stride(downsample: usize) -> (stride: usize)
    ensures
        stride == time_stride_of(downsample as int),
{
    if downsample == 1 || downsample == 2 {
        2
    } else {
        1
    }
}

/// Bytes of im2col columns a convolution builds at a time: two thirds of the L2 cache, between 16 and 256 MiB. A slice
/// that stays inside the cache is handed to the GEMM without a round trip through memory.
pub fn column_slice_bytes(l2_cache_bytes: Option<i32>) -> (bytes: usize)
    ensures
        bytes == ({
            let cache: int = match l2_cache_bytes {
                Some(bytes) => arithmetic::max(bytes as int, 0),
                None => 0,
            };
            arithmetic::min(arithmetic::max(cache / 3 * 2, 16777216), 268435456)
        }),
{
    let cache: usize = match l2_cache_bytes {
        Some(bytes) => if bytes > 0 {
            bytes as usize
        } else {
            0
        },
        None => 0,
    };
    arithmetic::least(arithmetic::greatest(cache / 3 * 2, 16777216), 268435456)
}

/// What an encoder keeps of the temporal kernels, which decides what it can encode.
#[derive(Clone, Copy, Debug, PartialEq, Eq, Structural)]
pub enum Temporal {
    /// A single frame, where the causal padding leaves only the last tap.
    Frame,
    /// A clip, with every tap and the two zero frames in front.
    Clip,
}

impl Temporal {
    pub open spec fn kept(self) -> usize {
        match self {
            Temporal::Frame => 1,
            Temporal::Clip => 3,
        }
    }

    /// The temporal taps it keeps.
    pub fn taps(self) -> (taps: usize)
        ensures
            taps == self.kept(),
    {
        match self {
            Temporal::Frame => 1,
            Temporal::Clip => 3,
        }
    }
}

/// A convolution as a GEMM: FP16 weights `[outputs, columns]` with the columns ordered (kt, ky,
/// kx, input channel) for 3 × 3 kernels and padded with zeros to a multiple of 8.
#[derive(Clone, Copy, Debug, PartialEq, Eq, Structural)]
pub struct Convolution {
    pub inputs: usize,
    pub outputs: usize,
    pub kernel: usize,
    pub taps: usize,
    pub columns: usize,
}

impl Convolution {
    /// The columns that are not padding.
    pub open spec fn filled(self) -> int {
        self.inputs * self.taps * self.kernel * self.kernel
    }

    pub open spec fn valid(self) -> bool {
        &&& self.kernel == 1 || self.kernel == 3
        &&& self.columns == arithmetic::round_up(self.filled(), 8)
    }

    /// What a Conv3d `[outputs, inputs, t, k, k]` comes to, of which the last `taps` temporal taps are kept, or why it
    /// is none. A pointwise shortcut spans one frame however much the rest of the encoder keeps.
    pub open spec fn of(name: Seq<char>, shape: Seq<usize>, taps: usize) -> Result<Convolution, Seq<char>> {
        if shape.len() != 5 {
            Err(name + " is not a Conv3d"@)
        } else if shape[3] != shape[4] || (shape[3] != 1 && shape[3] != 3) {
            Err(name + ": unsupported kernel "@ + text::decimal(shape[3] as nat))
        } else {
            let kept = arithmetic::min(taps as int, shape[2] as int);
            Ok(
                Convolution {
                    inputs: shape[1],
                    outputs: shape[0],
                    kernel: shape[3],
                    taps: kept as usize,
                    columns: arithmetic::round_up(shape[1] * kept * shape[3] * shape[3], 8) as usize,
                },
            )
        }
    }

    /// What a Conv3d of this shape comes to, or why it is none.
    pub fn load(name: &str, shape: &Vec<usize>, taps: usize) -> (convolution: Result<Convolution, Error>)
        requires
            taps <= 3,
            shape@.len() == 5 ==> shape@[1] * 27 + 8 <= usize::MAX,
        ensures
            match Convolution::of(name@, shape@, taps) {
                Ok(expected) => convolution matches Ok(convolution) && convolution == expected
                    && convolution.valid(),
                Err(words) => convolution matches Err(error) && error.says(words),
            },
    {
        if shape.len() != 5 {
            let mut message = String::from_str(name);
            message.append(" is not a Conv3d");
            return Err(Error::Model(message));
        }
        let kernel: usize = shape[3];
        if kernel != shape[4] || (kernel != 1 && kernel != 3) {
            let mut message = String::from_str(name);
            message.append(": unsupported kernel ");
            text::push_size(&mut message, kernel);
            return Err(Error::Model(message));
        }
        let kept: usize = arithmetic::least(taps, shape[2]);
        let inputs: usize = shape[1];
        proof {
            assert(0 <= inputs * kept <= inputs * 3) by (nonlinear_arith)
                requires
                    0 <= kept <= 3,
                    inputs >= 0,
            ;
            assert(0 <= inputs * kept * kernel <= inputs * kept * 3) by (nonlinear_arith)
                requires
                    inputs * kept >= 0,
                    0 <= kernel <= 3,
            ;
            assert(0 <= inputs * kept * kernel * kernel <= inputs * kept * kernel * 3) by (nonlinear_arith)
                requires
                    inputs * kept * kernel >= 0,
                    0 <= kernel <= 3,
            ;
            arithmetic::round_up_is_least(inputs * kept * kernel * kernel, 8);
        }
        let columns: usize = arithmetic::rounded_up(inputs * kept * kernel * kernel, 8);
        Ok(Convolution { inputs, outputs: shape[0], kernel, taps: kept, columns })
    }

    /// Where a column of an output comes from among the weights `[outputs, inputs, t, k, k]`, or nothing for padding.
    /// The taps kept are the last ones.
    pub open spec fn source(self, kernel_taps: int, output: int, column: int) -> Option<int> {
        if column < self.filled() {
            let kernel = self.kernel as int;
            let (input, place) = (column % self.inputs as int, column / self.inputs as int);
            let (x, line) = (place % kernel, place / kernel);
            let (y, tap) = (line % kernel, line / kernel);
            Some(
                (((output * self.inputs + input) * kernel_taps + (kernel_taps - self.taps + tap)) * kernel + y) * kernel
                    + x,
            )
        } else {
            None
        }
    }

    /// The weights `[outputs, inputs, t, k, k]` in the order of the columns.
    pub fn reordered<T: Copy>(&self, weights: &Vec<T>, kernel_taps: usize, zero: T) -> (columns: Vec<T>)
        requires
            self.valid(),
            self.taps <= kernel_taps,
            weights@.len() == self.outputs * self.inputs * kernel_taps * self.kernel * self.kernel,
            self.outputs * self.columns <= usize::MAX,
        ensures
            columns@.len() == self.outputs * self.columns,
            forall|place: int|
                0 <= place < columns@.len() ==> (#[trigger] columns@[place]) == (match self.source(
                    kernel_taps as int,
                    place / self.columns as int,
                    place % self.columns as int,
                ) {
                    Some(source) => weights@[source],
                    None => zero,
                }),
    {
        let size: usize = weights.len();
        let kernel: usize = self.kernel;
        let total: usize = self.outputs * self.columns;
        proof {
            filled_is_counted(*self);
        }
        let filled: usize = self.inputs * self.taps * kernel * kernel;
        let mut columns: Vec<T> = Vec::new();
        for place in 0..total
            invariant
                self.valid(),
                kernel == self.kernel,
                self.taps <= kernel_taps,
                size == weights@.len(),
                weights@.len() == self.outputs * self.inputs * kernel_taps * self.kernel * self.kernel,
                total == self.outputs * self.columns,
                filled == self.filled(),
                filled <= self.columns,
                columns@.len() == place,
                forall|i: int|
                    0 <= i < place ==> (#[trigger] columns@[i]) == (match self.source(
                        kernel_taps as int,
                        i / self.columns as int,
                        i % self.columns as int,
                    ) {
                        Some(source) => weights@[source],
                        None => zero,
                    }),
        {
            proof {
                assert(self.columns > 0) by (nonlinear_arith)
                    requires
                        place < self.outputs * self.columns,
                        self.columns >= 0,
                        place >= 0,
                ;
                arithmetic::quotient_is_inside(place as int, self.outputs as int, self.columns as int);
            }
            let output: usize = place / self.columns;
            let column: usize = place % self.columns;
            if column < filled {
                proof {
                    self.source_is_inside(kernel_taps as int, output as int, column as int);
                }
                let input: usize = column % self.inputs;
                let spot: usize = column / self.inputs;
                let x: usize = spot % kernel;
                let line: usize = spot / kernel;
                let y: usize = line % kernel;
                let tap: usize = line / kernel;
                let row: usize = (output * self.inputs + input) * kernel_taps + (kernel_taps - self.taps + tap);
                let source: usize = (row * kernel + y) * kernel + x;
                columns.push(weights[source]);
            } else {
                columns.push(zero);
            }
        }
        columns
    }

    proof fn source_is_inside(self, kernel_taps: int, output: int, column: int)
        requires
            self.valid(),
            self.taps <= kernel_taps,
            0 <= output < self.outputs,
            0 <= column < self.filled(),
        ensures
            self.inputs > 0,
            ({
                let kernel = self.kernel as int;
                let (input, place) = (column % self.inputs as int, column / self.inputs as int);
                let (x, line) = (place % kernel, place / kernel);
                let (y, tap) = (line % kernel, line / kernel);
                let first = output * self.inputs + input;
                let row = first * kernel_taps + (kernel_taps - self.taps + tap);
                let source = (row * kernel + y) * kernel + x;
                &&& 0 <= output * self.inputs
                &&& 0 <= first * kernel_taps
                &&& 0 <= tap < self.taps
                &&& 0 <= first <= row
                &&& 0 <= row <= row * kernel
                &&& 0 <= row * kernel + y <= (row * kernel + y) * kernel
                &&& 0 <= source < self.outputs * self.inputs * kernel_taps * self.kernel * self.kernel
            }),
    {
        let kernel = self.kernel as int;
        let inputs = self.inputs as int;
        let taps = self.taps as int;
        assert(inputs > 0 && taps > 0) by (nonlinear_arith)
            requires
                0 < inputs * taps * kernel * kernel,
                inputs >= 0,
                taps >= 0,
                kernel >= 0,
        ;
        let (input, place) = (column % inputs, column / inputs);
        assert(inputs * taps * kernel * kernel == (taps * kernel * kernel) * inputs) by (nonlinear_arith);
        arithmetic::quotient_is_inside(column, taps * kernel * kernel, inputs);
        let (x, line) = (place % kernel, place / kernel);
        arithmetic::quotient_is_inside(place, taps * kernel, kernel);
        let (y, tap) = (line % kernel, line / kernel);
        arithmetic::quotient_is_inside(line, taps, kernel);
        let first = output * inputs + input;
        arithmetic::nested_is_inside(output, self.outputs as int, input, inputs);
        let row = first * kernel_taps + (kernel_taps - taps + tap);
        arithmetic::nested_is_inside(first, self.outputs * inputs, kernel_taps - taps + tap, kernel_taps);
        arithmetic::nested_is_inside(row, self.outputs * inputs * kernel_taps, y, kernel);
        arithmetic::nested_is_inside(row * kernel + y, self.outputs * inputs * kernel_taps * kernel, x, kernel);
        assert(0 <= output * inputs) by (nonlinear_arith)
            requires
                output >= 0,
                inputs >= 0,
        ;
        assert(first <= first * kernel_taps) by (nonlinear_arith)
            requires
                first >= 0,
                kernel_taps >= 1,
        ;
        assert(row <= row * kernel) by (nonlinear_arith)
            requires
                row >= 0,
                kernel >= 1,
        ;
        assert(row * kernel + y <= (row * kernel + y) * kernel) by (nonlinear_arith)
            requires
                row * kernel + y >= 0,
                kernel >= 1,
        ;
    }
}

proof fn filled_is_counted(convolution: Convolution)
    requires
        convolution.valid(),
    ensures
        convolution.filled() <= convolution.columns,
        0 <= convolution.inputs * convolution.taps <= convolution.filled(),
        convolution.inputs * convolution.taps * convolution.kernel <= convolution.filled(),
        convolution.inputs * convolution.taps * convolution.kernel >= 0,
{
    let values = convolution.inputs * convolution.taps;
    let kernel = convolution.kernel as int;
    assert(values >= 0) by (nonlinear_arith)
        requires
            values == convolution.inputs * convolution.taps,
    ;
    assert(0 <= values * kernel <= values * kernel * kernel && values <= values * kernel) by (nonlinear_arith)
        requires
            values >= 0,
            kernel >= 1,
    ;
    arithmetic::round_up_is_least(convolution.filled(), 8);
}

/// Buffers an encode reuses, by their sizes. Allocating one costs a few hundred microseconds on an integrated GPU, and
/// freeing one waits for the work that reads it, so the activations of a tile are handed back here.
pub struct Buffers<T> {
    pub free: Vec<Spare<T>>,
}

/// A buffer of a size that nothing uses.
pub struct Spare<T> {
    pub bytes: usize,
    pub buffer: T,
}

/// Whether the buffer at `index` is the first one of a size.
pub open spec fn is_first<T>(free: Seq<Spare<T>>, bytes: usize, index: int) -> bool {
    &&& 0 <= index < free.len()
    &&& free[index].bytes == bytes
    &&& forall|i: int| 0 <= i < index ==> (#[trigger] free[i]).bytes != bytes
}

impl<T> Buffers<T> {
    pub fn new() -> (pool: Buffers<T>)
        ensures
            pool.free@.len() == 0,
    {
        Buffers { free: Vec::new() }
    }

    /// Takes the first buffer of a size, into whose place the last one moves. There is none where one has to be
    /// allocated.
    pub fn take(&mut self, bytes: usize) -> (buffer: Option<T>)
        ensures
            match buffer {
                Some(buffer) => exists|index: int|
                    #[trigger] is_first(old(self).free@, bytes, index) && buffer == old(self).free@[index].buffer && (
                    if index == old(self).free@.len() - 1 {
                        final(self).free@ == old(self).free@.drop_last()
                    } else {
                        final(self).free@ == old(self).free@.drop_last().update(index, old(self).free@.last())
                    }),
                None => final(self).free@ == old(self).free@ && forall|i: int|
                    0 <= i < old(self).free@.len() ==> (#[trigger] old(self).free@[i]).bytes != bytes,
            },
    {
        let ghost before = self.free@;
        let count: usize = self.free.len();
        let mut index: usize = 0;
        while index < count && self.free[index].bytes != bytes
            invariant
                count == self.free@.len(),
                self.free@ == before,
                index <= count,
                forall|i: int| 0 <= i < index ==> (#[trigger] before[i]).bytes != bytes,
            decreases count - index,
        {
            index = index + 1;
        }
        if index == count {
            return None;
        }
        assert(is_first(before, bytes, index as int));
        match self.free.pop() {
            None => None,
            Some(last) => {
                if index == count - 1 {
                    Some(last.buffer)
                } else {
                    let mut held = last;
                    std::mem::swap(&mut held, &mut self.free[index]);
                    assert(self.free@ =~= before.drop_last().update(index as int, before.last()));
                    Some(held.buffer)
                }
            },
        }
    }

    /// Hands a buffer back.
    pub fn give(&mut self, bytes: usize, buffer: T)
        ensures
            final(self).free@ == old(self).free@.push((Spare { bytes, buffer })),
    {
        self.free.push(Spare { bytes, buffer });
    }
}

/// A buffer that was handed back is there for the next of its size, and no other is lost.
pub proof fn a_spare_is_taken_again<T>(before: Seq<Spare<T>>, after: Seq<Spare<T>>, index: int)
    requires
        0 <= index < before.len(),
        if index == before.len() - 1 {
            after == before.drop_last()
        } else {
            after == before.drop_last().update(index, before.last())
        },
    ensures
        after.to_multiset() == before.to_multiset().remove(before[index]),
{
    broadcast use vstd::seq_lib::group_to_multiset_ensures;

    let less = before.drop_last();
    assert(before =~= less.push(before.last()));
    assert(before.to_multiset() =~= less.to_multiset().insert(before.last()));
    if index == before.len() - 1 {
        assert(after.to_multiset() =~= before.to_multiset().remove(before[index]));
    } else {
        assert(less.update(index, before.last()).to_multiset() =~= less.to_multiset().insert(before.last()).remove(
            less[index],
        )) by {
            vstd::seq_lib::to_multiset_update(less, index, before.last());
        }
        assert(after.to_multiset() =~= before.to_multiset().remove(before[index]));
    }
}

/// FP16 activations `[frames, height, width, channels]`.
#[derive(Clone, Copy, Debug, PartialEq, Eq, Structural)]
pub struct Activation {
    pub frames: usize,
    pub height: usize,
    pub width: usize,
    pub channels: usize,
}

impl Activation {
    /// Pixels of every frame.
    pub open spec fn rows(self) -> int {
        self.frames * self.height * self.width
    }

    pub open spec fn size(self) -> int {
        self.rows() * self.channels * 2
    }

    pub fn bytes(&self) -> (bytes: usize)
        requires
            self.frames * self.height <= usize::MAX,
            self.rows() <= usize::MAX,
            self.rows() * self.channels <= usize::MAX,
            self.size() <= usize::MAX,
        ensures
            bytes == self.size(),
    {
        self.frames * self.height * self.width * self.channels * 2
    }

    /// Pixels of one frame.
    pub fn pixels(&self) -> (pixels: usize)
        requires
            self.height * self.width <= usize::MAX,
        ensures
            pixels == self.height * self.width,
    {
        self.height * self.width
    }
}

/// The convolutions of an encoder.
#[derive(Clone, Copy, Debug, PartialEq, Eq, Structural)]
pub enum Which {
    Input,
    First { level: usize, block: usize },
    Second { level: usize, block: usize },
    Shortcut { level: usize, block: usize },
    Downsample { level: usize },
    Output,
    Quant,
}

/// The name of a level in a file.
pub open spec fn level_letters(level: usize) -> Seq<char> {
    checkpoint::numbered("encoder.down."@, level as nat, ""@)
}

/// The name of a block of a level in a file.
pub open spec fn block_letters(level: usize, block: usize) -> Seq<char> {
    checkpoint::numbered(level_letters(level) + ".block."@, block as nat, ""@)
}

fn block_name(level: usize, block: usize, rest: &str) -> (name: String)
    ensures
        name@ == block_letters(level, block) + rest@,
{
    let start = checkpoint::numbered_name("encoder.down.", level, "");
    let block = checkpoint::numbered_name(checkpoint::joined(start.as_str(), ".block.").as_str(), block, "");
    checkpoint::joined(block.as_str(), rest)
}

impl Which {
    pub open spec fn letters(self) -> Seq<char> {
        match self {
            Which::Input => "encoder.conv_in"@,
            Which::First { level, block } => block_letters(level, block) + ".conv1"@,
            Which::Second { level, block } => block_letters(level, block) + ".conv2"@,
            Which::Shortcut { level, block } => block_letters(level, block) + ".nin_shortcut"@,
            Which::Downsample { level } => level_letters(level) + ".downsample.conv"@,
            Which::Output => "encoder.conv_out"@,
            Which::Quant => "quant_conv"@,
        }
    }

    /// The name of the convolution in a file.
    pub fn name(self) -> (name: String)
        ensures
            name@ == self.letters(),
    {
        match self {
            Which::Input => String::from_str("encoder.conv_in"),
            Which::First { level, block } => block_name(level, block, ".conv1"),
            Which::Second { level, block } => block_name(level, block, ".conv2"),
            Which::Shortcut { level, block } => block_name(level, block, ".nin_shortcut"),
            Which::Downsample { level } => {
                let start = checkpoint::numbered_name("encoder.down.", level, "");
                checkpoint::joined(start.as_str(), ".downsample.conv")
            },
            Which::Output => String::from_str("encoder.conv_out"),
            Which::Quant => String::from_str("quant_conv"),
        }
    }

    pub open spec fn norm_letters(self) -> Option<Seq<char>> {
        match self {
            Which::First { level, block } => Some(block_letters(level, block) + ".norm1"@),
            Which::Second { level, block } => Some(block_letters(level, block) + ".norm2"@),
            Which::Output => Some("encoder.norm_out"@),
            _ => None,
        }
    }

    /// The name of the normalization in front of the convolution, where there is one.
    pub fn norm(self) -> (name: Option<String>)
        ensures
            match self.norm_letters() {
                Some(letters) => name matches Some(name) && name@ == letters,
                None => name is None,
            },
    {
        match self {
            Which::First { level, block } => Some(block_name(level, block, ".norm1")),
            Which::Second { level, block } => Some(block_name(level, block, ".norm2")),
            Which::Output => Some(String::from_str("encoder.norm_out")),
            _ => None,
        }
    }
}

/// One launch of an encoder.
#[derive(Clone, Copy, Debug, PartialEq, Eq, Structural)]
pub enum VideoStep {
    /// Makes the activation that a convolution writes.
    Make { which: Which, output: Activation },
    /// What a convolution wrote takes its place, and what it read is given back.
    Done { which: Which },
    /// SiLU(GroupNorm(input)) before a convolution.
    GroupNorm { which: Which, input: Activation },
    /// The statistics of the group norm that a fused convolution applies.
    Statistics { which: Which, input: Activation },
    /// Copies an activation for the second convolution of a block to add onto.
    Copy { input: Activation },
    /// A 3 × 3 kernel at stride one in one pass over its input.
    Fused { which: Which, input: Activation, accumulate: bool, normalize: bool },
    /// A 1 × 1 kernel on the rows of its input as they are.
    Pointwise { which: Which, rows: usize, accumulate: bool },
    /// The columns of a slice of the rows.
    Columns { which: Which, input: Activation, stride: usize, time_stride: usize, first: usize, count: usize },
    /// The GEMM over a slice's columns.
    Product { which: Which, first: usize, count: usize, accumulate: bool },
}

/// Launches and the activation they leave, or why there are none.
pub type Flow = Result<(Seq<VideoStep>, Activation), Seq<char>>;

/// Launches, and then those on the activation they leave.
pub open spec fn flowing(first: Flow, next: spec_fn(Activation) -> Flow) -> Flow {
    match first {
        Err(words) => Err(words),
        Ok((one, middle)) => match next(middle) {
            Err(words) => Err(words),
            Ok((other, last)) => Ok((one + other, last)),
        },
    }
}

/// Launches ahead of others.
pub open spec fn ahead(steps: Seq<VideoStep>, flow: Flow) -> Flow {
    match flow {
        Err(words) => Err(words),
        Ok((rest, last)) => Ok((steps + rest, last)),
    }
}

/// Whether launches were added as `flow` says, and the activation is the one they leave.
pub open spec fn flowed(
    before: Seq<VideoStep>,
    after: Seq<VideoStep>,
    result: Result<Activation, Error>,
    flow: Flow,
) -> bool {
    match flow {
        Ok((list, last)) => result == Ok::<Activation, Error>(last) && after =~= before + list,
        Err(words) => result matches Err(error) && error.says(words),
    }
}

/// Whether the fused convolution takes this kernel and input.
pub open spec fn fusing(convolution: Convolution, input: Activation, stride: usize, time_stride: usize) -> bool {
    convolution.kernel == 3 && stride == 1 && time_stride == 1 && input.channels % CONV_CHANNEL_CHUNK == 0
}

fn fuses(convolution: &Convolution, input: &Activation, stride: usize, time_stride: usize) -> (fuses: bool)
    ensures
        fuses == fusing(*convolution, *input, stride, time_stride),
{
    convolution.kernel == 3 && stride == 1 && time_stride == 1 && input.channels % CONV_CHANNEL_CHUNK == 0
}

/// Rows of the columns that are built at a time.
pub open spec fn slice_rows(slice_bytes: usize, columns: usize) -> int {
    arithmetic::max(slice_bytes as int / (columns * 2), 1)
}

/// The slices from row `first` on.
pub open spec fn slices(
    which: Which,
    input: Activation,
    stride: usize,
    time_stride: usize,
    accumulate: bool,
    slice: int,
    rows: int,
    first: int,
) -> Seq<VideoStep>
    decreases rows - first,
{
    if first >= rows || slice <= 0 {
        Seq::empty()
    } else {
        let count = arithmetic::min(slice, rows - first);
        seq![
            VideoStep::Columns { which, input, stride, time_stride, first: first as usize, count: count as usize },
            VideoStep::Product { which, first: first as usize, count: count as usize, accumulate },
        ] + slices(which, input, stride, time_stride, accumulate, slice, rows, first + count)
    }
}

/// What a convolution leaves of an activation. The causal padding covers the taps, so the frames only follow the
/// temporal stride.
pub open spec fn convolved(convolution: Convolution, input: Activation, stride: usize, time_stride: usize) -> Activation {
    Activation {
        frames: ((input.frames - 1) / time_stride as int + 1) as usize,
        height: (input.height as int / stride as int) as usize,
        width: (input.width as int / stride as int) as usize,
        channels: convolution.outputs,
    }
}

/// The launches of a convolution and the activation they write.
#[verifier::opaque]
pub open spec fn passes_flow(
    which: Which,
    convolution: Convolution,
    input: Activation,
    stride: usize,
    time_stride: usize,
    accumulate: Option<Activation>,
    normalize: bool,
    slice_bytes: usize,
) -> Flow {
    let made = convolved(convolution, input, stride, time_stride);
    let output = match accumulate {
        Some(activation) => activation,
        None => made,
    };
    let adds = accumulate is Some;
    if input.channels != convolution.inputs {
        Err("convolution inputs do not match"@)
    } else if fusing(convolution, input, stride, time_stride) {
        let fused = seq![VideoStep::Fused { which, input, accumulate: adds, normalize }];
        Ok(
            (
                if normalize {
                    seq![VideoStep::Statistics { which, input }] + fused
                } else {
                    fused
                },
                output,
            ),
        )
    } else if normalize {
        Err("this convolution cannot normalize its input"@)
    } else if convolution.kernel == 1 {
        Ok((seq![VideoStep::Pointwise { which, rows: made.rows() as usize, accumulate: adds }], output))
    } else {
        Ok(
            (
                slices(
                    which,
                    input,
                    stride,
                    time_stride,
                    adds,
                    slice_rows(slice_bytes, convolution.columns),
                    made.rows(),
                    0,
                ),
                output,
            ),
        )
    }
}

/// A convolution with `stride` in space and `time_stride` in time. With `accumulate`, the result adds onto that
/// activation. With `normalize`, the group norm before it is applied as the input is staged.
#[verifier::opaque]
pub open spec fn convolve_flow(
    which: Which,
    convolution: Convolution,
    input: Activation,
    stride: usize,
    time_stride: usize,
    accumulate: Option<Activation>,
    normalize: bool,
    slice_bytes: usize,
) -> Flow {
    match passes_flow(which, convolution, input, stride, time_stride, accumulate, normalize, slice_bytes) {
        Err(words) => Err(words),
        Ok((passes, output)) => Ok(
            (
                (if accumulate is None {
                    seq![VideoStep::Make { which, output }]
                } else {
                    Seq::empty()
                }) + passes + seq![VideoStep::Done { which }],
                output,
            ),
        ),
    }
}

/// Whether an activation has frames, and its rows can be counted.
pub open spec fn countable(input: Activation) -> bool {
    &&& input.frames > 0
    &&& input.frames * input.height <= usize::MAX
    &&& input.rows() <= usize::MAX
}

/// A convolution leaves no more rows than it takes.
pub proof fn a_convolution_leaves_no_more_rows(
    convolution: Convolution,
    input: Activation,
    stride: usize,
    time_stride: usize,
)
    requires
        countable(input),
        stride > 0,
        time_stride > 0,
    ensures
        ({
            let made = convolved(convolution, input, stride, time_stride);
            &&& countable(made)
            &&& made.frames <= input.frames
            &&& made.height * made.width <= input.height * input.width
            &&& made.frames == (input.frames - 1) / time_stride as int + 1
            &&& made.height == input.height as int / stride as int
            &&& made.width == input.width as int / stride as int
            &&& made.rows() <= input.rows()
        }),
{
    let made_frames = (input.frames - 1) / time_stride as int + 1;
    let tall = input.height as int / stride as int;
    let wide = input.width as int / stride as int;
    assert(0 <= tall <= input.height && 0 <= wide <= input.width && 1 <= made_frames <= input.frames)
        by (nonlinear_arith)
        requires
            stride > 0,
            time_stride > 0,
            input.frames >= 1,
            input.height >= 0,
            input.width >= 0,
            made_frames == (input.frames - 1) / time_stride as int + 1,
            tall == input.height as int / stride as int,
            wide == input.width as int / stride as int,
    ;
    arithmetic::products_grow(made_frames, tall, input.frames as int, input.height as int);
    arithmetic::products_grow(made_frames * tall, wide, input.frames * input.height, input.width as int);
    arithmetic::products_grow(tall, wide, input.height as int, input.width as int);
}

fn pass(
    which: Which,
    convolution: &Convolution,
    input: &Activation,
    stride: usize,
    time_stride: usize,
    accumulate: Option<Activation>,
    normalize: bool,
    slice_bytes: usize,
    steps: &mut Vec<VideoStep>,
) -> (result: Result<Activation, Error>)
    requires
        stride > 0,
        time_stride > 0,
        countable(*input),
        has_columns(*convolution),
    ensures
        flowed(
            old(steps)@,
            final(steps)@,
            result,
            passes_flow(
                which,
                *convolution,
                *input,
                stride,
                time_stride,
                accumulate,
                normalize,
                slice_bytes,
            ),
        ),
{
    proof {
        reveal(passes_flow);
        a_convolution_leaves_no_more_rows(*convolution, *input, stride, time_stride);
    }
    let ghost before = steps@;
    if input.channels != convolution.inputs {
        return Err(Error::Model(String::from_str("convolution inputs do not match")));
    }
    let made = Activation {
        frames: (input.frames - 1) / time_stride + 1,
        height: input.height / stride,
        width: input.width / stride,
        channels: convolution.outputs,
    };
    let adds = accumulate.is_some();
    let output = match accumulate {
        Some(activation) => activation,
        None => made,
    };
    if fuses(convolution, input, stride, time_stride) {
        if normalize {
            steps.push(VideoStep::Statistics { which, input: *input });
        }
        steps.push(VideoStep::Fused { which, input: *input, accumulate: adds, normalize });
        return Ok(output);
    }
    if normalize {
        return Err(Error::Model(String::from_str("this convolution cannot normalize its input")));
    }
    let rows: usize = made.frames * made.height * made.width;
    if convolution.kernel == 1 {
        steps.push(VideoStep::Pointwise { which, rows, accumulate: adds });
        return Ok(output);
    }
    let slice: usize = arithmetic::greatest(slice_bytes / (convolution.columns * 2), 1);
    let mut first: usize = 0;
    let ghost whole = slices(which, *input, stride, time_stride, adds, slice as int, rows as int, 0);
    assert(steps@ + whole =~= before + whole);
    while first < rows
        invariant
            slice >= 1,
            first <= rows,
            steps@ + slices(which, *input, stride, time_stride, adds, slice as int, rows as int, first as int)
                =~= before + whole,
        decreases rows - first,
    {
        let count: usize = arithmetic::least(slice, rows - first);
        steps.push(VideoStep::Columns { which, input: *input, stride, time_stride, first, count });
        steps.push(VideoStep::Product { which, first, count, accumulate: adds });
        first = first + count;
    }
    assert(steps@ =~= before + whole);
    Ok(output)
}

fn convolve(
    which: Which,
    convolution: &Convolution,
    input: &Activation,
    stride: usize,
    time_stride: usize,
    accumulate: Option<Activation>,
    normalize: bool,
    slice_bytes: usize,
    steps: &mut Vec<VideoStep>,
) -> (result: Result<Activation, Error>)
    requires
        stride > 0,
        time_stride > 0,
        countable(*input),
        has_columns(*convolution),
    ensures
        flowed(
            old(steps)@,
            final(steps)@,
            result,
            convolve_flow(
                which,
                *convolution,
                *input,
                stride,
                time_stride,
                accumulate,
                normalize,
                slice_bytes,
            ),
        ),
{
    proof {
        reveal(convolve_flow);
        reveal(passes_flow);
        a_convolution_leaves_no_more_rows(*convolution, *input, stride, time_stride);
    }
    let ghost before = steps@;
    if accumulate.is_none() {
        let output = Activation {
            frames: (input.frames - 1) / time_stride + 1,
            height: input.height / stride,
            width: input.width / stride,
            channels: convolution.outputs,
        };
        steps.push(VideoStep::Make { which, output });
    }
    let output = pass(which, convolution, input, stride, time_stride, accumulate, normalize, slice_bytes, steps)?;
    steps.push(VideoStep::Done { which });
    proof {
        let list = (convolve_flow(
            which,
            *convolution,
            *input,
            stride,
            time_stride,
            accumulate,
            normalize,
            slice_bytes,
        )->Ok_0).0;
        assert(steps@ =~= before + list);
    }
    Ok(output)
}

/// SiLU(GroupNorm(input)) and then the convolution. A 3 × 3 kernel at stride one applies the norm as it stages its input,
/// so the normalized activation never reaches memory.
#[verifier::opaque]
pub open spec fn normalized_flow(
    which: Which,
    convolution: Convolution,
    input: Activation,
    accumulate: Option<Activation>,
    slice_bytes: usize,
) -> Flow {
    if fusing(convolution, input, 1, 1) && input.channels % GROUPS == 0 {
        convolve_flow(which, convolution, input, 1, 1, accumulate, true, slice_bytes)
    } else {
        ahead(
            seq![VideoStep::GroupNorm { which, input }],
            convolve_flow(which, convolution, input, 1, 1, accumulate, false, slice_bytes),
        )
    }
}

fn normalized_convolve(
    which: Which,
    convolution: &Convolution,
    input: &Activation,
    accumulate: Option<Activation>,
    slice_bytes: usize,
    steps: &mut Vec<VideoStep>,
) -> (result: Result<Activation, Error>)
    requires
        countable(*input),
        has_columns(*convolution),
    ensures
        flowed(
            old(steps)@,
            final(steps)@,
            result,
            normalized_flow(which, *convolution, *input, accumulate, slice_bytes),
        ),
{
    proof {
        reveal(normalized_flow);
    }
    if fuses(convolution, input, 1, 1) && input.channels % GROUPS == 0 {
        return convolve(which, convolution, input, 1, 1, accumulate, true, slice_bytes, steps);
    }
    steps.push(VideoStep::GroupNorm { which, input: *input });
    convolve(which, convolution, input, 1, 1, accumulate, false, slice_bytes, steps)
}

/// A block of two convolutions, with a convolution on its shortcut or none.
#[derive(Clone, Copy, Debug, PartialEq, Eq, Structural)]
pub struct ResnetBlock {
    pub conv1: Convolution,
    pub conv2: Convolution,
    pub shortcut: Option<Convolution>,
}

pub struct Level {
    pub blocks: Vec<ResnetBlock>,
    /// A stride-2 convolution after the blocks.
    pub downsample: Option<Convolution>,
}

/// What the second convolution of a block adds onto.
pub open spec fn shortcut_flow(
    block: ResnetBlock,
    level: usize,
    index: usize,
    input: Activation,
    slice_bytes: usize,
) -> Flow {
    match block.shortcut {
        Some(shortcut) => convolve_flow(
            Which::Shortcut { level, block: index },
            shortcut,
            input,
            1,
            1,
            None,
            false,
            slice_bytes,
        ),
        None => Ok((seq![VideoStep::Copy { input }], input)),
    }
}

/// A block: its first convolution, its shortcut, and its second convolution onto the shortcut.
#[verifier::opaque]
pub open spec fn block_flow(
    block: ResnetBlock,
    level: usize,
    index: usize,
    input: Activation,
    slice_bytes: usize,
) -> Flow {
    match normalized_flow(Which::First { level, block: index }, block.conv1, input, None, slice_bytes) {
        Err(words) => Err(words),
        Ok((one, hidden)) => match shortcut_flow(block, level, index, input, slice_bytes) {
            Err(words) => Err(words),
            Ok((two, residual)) => match normalized_flow(
                Which::Second { level, block: index },
                block.conv2,
                hidden,
                Some(residual),
                slice_bytes,
            ) {
                Err(words) => Err(words),
                Ok((three, last)) => Ok((one + two + three, last)),
            },
        },
    }
}

/// Whether the columns of a convolution can be counted, and a 1 × 1 convolution reads the rows as they are.
pub open spec fn has_columns(convolution: Convolution) -> bool {
    &&& 0 < convolution.columns * 2 <= usize::MAX
    &&& convolution.kernel == 1 ==> convolution.columns == convolution.inputs
}

pub open spec fn block_has_columns(block: ResnetBlock) -> bool {
    &&& has_columns(block.conv1)
    &&& has_columns(block.conv2)
    &&& block.shortcut matches Some(shortcut) ==> has_columns(shortcut)
}

/// What a flow leaves has frames and rows that can be counted.
pub proof fn a_convolution_is_countable(
    which: Which,
    convolution: Convolution,
    input: Activation,
    stride: usize,
    time_stride: usize,
    accumulate: Option<Activation>,
    normalize: bool,
    slice_bytes: usize,
)
    requires
        countable(input),
        stride > 0,
        time_stride > 0,
        accumulate matches Some(activation) ==> countable(activation),
    ensures
        convolve_flow(
            which,
            convolution,
            input,
            stride,
            time_stride,
            accumulate,
            normalize,
            slice_bytes,
        ) matches Ok((steps, last)) ==> countable(last) && last == (match accumulate {
            Some(activation) => activation,
            None => convolved(convolution, input, stride, time_stride),
        }),
{
    reveal(convolve_flow);
    reveal(passes_flow);
    a_convolution_leaves_no_more_rows(convolution, input, stride, time_stride);
}

proof fn a_normalized_convolution_is_countable(
    which: Which,
    convolution: Convolution,
    input: Activation,
    accumulate: Option<Activation>,
    slice_bytes: usize,
)
    requires
        countable(input),
        accumulate matches Some(activation) ==> countable(activation),
    ensures
        normalized_flow(which, convolution, input, accumulate, slice_bytes) matches Ok((steps, last)) ==> countable(last)
            && last == (match accumulate {
            Some(activation) => activation,
            None => convolved(convolution, input, 1, 1),
        }),
{
    reveal(normalized_flow);
    a_convolution_is_countable(which, convolution, input, 1, 1, accumulate, true, slice_bytes);
    a_convolution_is_countable(which, convolution, input, 1, 1, accumulate, false, slice_bytes);
}

fn resnet_block(
    block: &ResnetBlock,
    level: usize,
    index: usize,
    input: &Activation,
    slice_bytes: usize,
    steps: &mut Vec<VideoStep>,
) -> (result: Result<Activation, Error>)
    requires
        countable(*input),
        block_has_columns(*block),
    ensures
        flowed(
            old(steps)@,
            final(steps)@,
            result,
            block_flow(*block, level, index, *input, slice_bytes),
        ),
        result matches Ok(last) ==> countable(last),
{
    proof {
        reveal(block_flow);
        a_normalized_convolution_is_countable(
            Which::First { level, block: index },
            block.conv1,
            *input,
            None,
            slice_bytes,
        );
    }
    let ghost before = steps@;
    let hidden = normalized_convolve(
        Which::First { level, block: index },
        &block.conv1,
        input,
        None,
        slice_bytes,
        steps,
    )?;
    let residual = match &block.shortcut {
        Some(shortcut) => {
            proof {
                a_convolution_is_countable(
                    Which::Shortcut { level, block: index },
                    *shortcut,
                    *input,
                    1,
                    1,
                    None,
                    false,
                    slice_bytes,
                );
            }
            convolve(
                Which::Shortcut { level, block: index },
                shortcut,
                input,
                1,
                1,
                None,
                false,
                slice_bytes,
                steps,
            )?
        },
        None => {
            steps.push(VideoStep::Copy { input: *input });
            *input
        },
    };
    proof {
        a_normalized_convolution_is_countable(
            Which::Second { level, block: index },
            block.conv2,
            hidden,
            Some(residual),
            slice_bytes,
        );
    }
    let last = normalized_convolve(
        Which::Second { level, block: index },
        &block.conv2,
        &hidden,
        Some(residual),
        slice_bytes,
        steps,
    )?;
    proof {
        let list = (block_flow(*block, level, index, *input, slice_bytes)->Ok_0).0;
        assert(steps@ =~= before + list);
    }
    Ok(last)
}

/// An encoder whose weights are on the device.
pub struct CudaVideoEncoder {
    pub input: Convolution,
    pub levels: Vec<Level>,
    pub output: Convolution,
    pub quant: Convolution,
    pub temporal: Temporal,
    pub tile_size: usize,
    pub tile_overlap_min: usize,
}

/// The downsamplings of the first `count` levels.
pub open spec fn downsamples(levels: Seq<Level>, count: int) -> int
    decreases count,
{
    if count <= 0 {
        0
    } else {
        downsamples(levels, count - 1) + (if levels[count - 1].downsample is Some {
            1int
        } else {
            0int
        })
    }
}

fn count_downsamples(levels: &Vec<Level>) -> (count: usize)
    ensures
        count == downsamples(levels@, levels@.len() as int),
{
    let total: usize = levels.len();
    let mut count: usize = 0;
    for index in 0..total
        invariant
            total == levels@.len(),
            count <= index,
            count == downsamples(levels@, index as int),
    {
        if levels[index].downsample.is_some() {
            count = count + 1;
        }
    }
    count
}

impl CudaVideoEncoder {
    /// Refuses an encoder whose downsamplings, moments or latent statistics are not those of the video VAE.
    pub fn check(&self, latents: usize) -> (result: Result<(), Error>)
        ensures
            match result {
                Ok(_) => downsamples(self.levels@, self.levels@.len() as int) == 4 && self.quant.outputs == 48
                    && latents == LATENT_CHANNELS,
                Err(error) => !(downsamples(self.levels@, self.levels@.len() as int) == 4 && self.quant.outputs == 48
                    && latents == LATENT_CHANNELS) && error.says("unsupported video encoder"@),
            },
    {
        if count_downsamples(&self.levels) != 4 || self.quant.outputs != 2 * LATENT_CHANNELS || latents
            != LATENT_CHANNELS {
            return Err(Error::Model(String::from_str("unsupported video encoder")));
        }
        Ok(())
    }

    /// Whether the columns of every convolution can be counted.
    pub open spec fn has_columns(self) -> bool {
        &&& has_columns(self.input)
        &&& has_columns(self.output)
        &&& has_columns(self.quant)
        &&& forall|i: int| 0 <= i < self.levels@.len() ==> level_has_columns(#[trigger] self.levels@[i])
    }
}

pub open spec fn level_has_columns(level: Level) -> bool {
    &&& forall|i: int| 0 <= i < level.blocks@.len() ==> block_has_columns(#[trigger] level.blocks@[i])
    &&& level.downsample matches Some(downsample) ==> has_columns(downsample)
}

/// The first `count` blocks of a level.
pub open spec fn blocks_flow(
    blocks: Seq<ResnetBlock>,
    level: usize,
    input: Activation,
    slice_bytes: usize,
    count: int,
) -> Flow
    decreases count,
{
    if count <= 0 {
        Ok((Seq::empty(), input))
    } else {
        flowing(
            blocks_flow(blocks, level, input, slice_bytes, count - 1),
            |middle: Activation|
                block_flow(blocks[count - 1], level, (count - 1) as usize, middle, slice_bytes),
        )
    }
}

/// The downsampling of a level, where it has one.
pub open spec fn downsample_flow(
    downsample: Option<Convolution>,
    level: usize,
    before: int,
    input: Activation,
    slice_bytes: usize,
) -> Flow {
    match downsample {
        None => Ok((Seq::empty(), input)),
        Some(convolution) => convolve_flow(
            Which::Downsample { level },
            convolution,
            input,
            2,
            time_stride_of(before),
            None,
            false,
            slice_bytes,
        ),
    }
}

/// A level, behind `before` downsamplings.
#[verifier::opaque]
pub open spec fn level_flow(
    level: Level,
    index: usize,
    before: int,
    input: Activation,
    slice_bytes: usize,
) -> Flow {
    flowing(
        blocks_flow(level.blocks@, index, input, slice_bytes, level.blocks@.len() as int),
        |middle: Activation| downsample_flow(level.downsample, index, before, middle, slice_bytes),
    )
}

/// The first `count` levels.
pub open spec fn levels_flow(levels: Seq<Level>, input: Activation, slice_bytes: usize, count: int) -> Flow
    decreases count,
{
    if count <= 0 {
        Ok((Seq::empty(), input))
    } else {
        flowing(
            levels_flow(levels, input, slice_bytes, count - 1),
            |middle: Activation|
                level_flow(
                    levels[count - 1],
                    (count - 1) as usize,
                    downsamples(levels, count - 1),
                    middle,
                    slice_bytes,
                ),
        )
    }
}

/// The launches behind the levels.
pub open spec fn end_flow(encoder: CudaVideoEncoder, input: Activation, slice_bytes: usize) -> Flow {
    flowing(
        normalized_flow(Which::Output, encoder.output, input, None, slice_bytes),
        |middle: Activation|
            convolve_flow(Which::Quant, encoder.quant, middle, 1, 1, None, false, slice_bytes),
    )
}

/// From the pixels of a tile to its moments.
pub open spec fn tile_flow(encoder: CudaVideoEncoder, input: Activation, slice_bytes: usize) -> Flow {
    flowing(
        flowing(
            convolve_flow(Which::Input, encoder.input, input, 1, 1, None, false, slice_bytes),
            |first: Activation|
                levels_flow(encoder.levels@, first, slice_bytes, encoder.levels@.len() as int),
        ),
        |middle: Activation| end_flow(encoder, middle, slice_bytes),
    )
}

proof fn a_refused_block_stays(
    blocks: Seq<ResnetBlock>,
    level: usize,
    input: Activation,
    slice_bytes: usize,
    count: int,
    all: int,
)
    requires
        0 <= count <= all,
        blocks_flow(blocks, level, input, slice_bytes, count) is Err,
    ensures
        blocks_flow(blocks, level, input, slice_bytes, all) == blocks_flow(blocks, level, input, slice_bytes, count),
    decreases all,
{
    if count < all {
        a_refused_block_stays(blocks, level, input, slice_bytes, count, all - 1);
    }
}

proof fn a_refused_level_stays(levels: Seq<Level>, input: Activation, slice_bytes: usize, count: int, all: int)
    requires
        0 <= count <= all,
        levels_flow(levels, input, slice_bytes, count) is Err,
    ensures
        levels_flow(levels, input, slice_bytes, all) == levels_flow(levels, input, slice_bytes, count),
    decreases all,
{
    if count < all {
        a_refused_level_stays(levels, input, slice_bytes, count, all - 1);
    }
}

fn run_level(
    level: &Level,
    index: usize,
    before: usize,
    input: &Activation,
    slice_bytes: usize,
    steps: &mut Vec<VideoStep>,
) -> (result: Result<Activation, Error>)
    requires
        countable(*input),
        level_has_columns(*level),
    ensures
        flowed(
            old(steps)@,
            final(steps)@,
            result,
            level_flow(*level, index, before as int, *input, slice_bytes),
        ),
        result matches Ok(last) ==> countable(last),
{
    proof {
        reveal(level_flow);
    }
    let ghost start = steps@;
    let count: usize = level.blocks.len();
    let mut hidden = *input;
    for block in 0..count
        invariant
            count == level.blocks@.len(),
            level_has_columns(*level),
            countable(hidden),
            flowed(
                start,
                steps@,
                Ok(hidden),
                blocks_flow(level.blocks@, index, *input, slice_bytes, block as int),
            ),
    {
        assert(block_has_columns(level.blocks@[block as int]));
        let result = resnet_block(&level.blocks[block], index, block, &hidden, slice_bytes, steps);
        match result {
            Ok(next) => {
                hidden = next;
            },
            Err(error) => {
                proof {
                    reveal(level_flow);
                    a_refused_block_stays(level.blocks@, index, *input, slice_bytes, block + 1, count as int);
                }
                return Err(error);
            },
        }
    }
    if let Some(downsample) = &level.downsample {
        proof {
            reveal(level_flow);
            a_convolution_is_countable(
                Which::Downsample { level: index },
                *downsample,
                hidden,
                2,
                time_stride_of(before as int),
                None,
                false,
                slice_bytes,
            );
        }
        return convolve(
            Which::Downsample { level: index },
            downsample,
            &hidden,
            2,
            time_stride(before),
            None,
            false,
            slice_bytes,
            steps,
        );
    }
    proof {
        reveal(level_flow);
    }
    Ok(hidden)
}

impl CudaVideoEncoder {
    fn run_levels(&self, input: &Activation, slice_bytes: usize, steps: &mut Vec<VideoStep>) -> (result: Result<
        Activation,
        Error,
    >)
        requires
            countable(*input),
            self.has_columns(),
        ensures
            flowed(
                old(steps)@,
                final(steps)@,
                result,
                levels_flow(self.levels@, *input, slice_bytes, self.levels@.len() as int),
            ),
            result matches Ok(last) ==> countable(last),
    {
        let ghost start = steps@;
        let count: usize = self.levels.len();
        let mut hidden = *input;
        let mut before: usize = 0;
        for level in 0..count
            invariant
                count == self.levels@.len(),
                self.has_columns(),
                countable(hidden),
                before <= level,
                before == downsamples(self.levels@, level as int),
                flowed(start, steps@, Ok(hidden), levels_flow(self.levels@, *input, slice_bytes, level as int)),
        {
            assert(level_has_columns(self.levels@[level as int]));
            match run_level(&self.levels[level], level, before, &hidden, slice_bytes, steps) {
                Ok(next) => {
                    hidden = next;
                },
                Err(error) => {
                    proof {
                        a_refused_level_stays(self.levels@, *input, slice_bytes, level + 1, count as int);
                    }
                    return Err(error);
                },
            }
            if self.levels[level].downsample.is_some() {
                before = before + 1;
            }
        }
        Ok(hidden)
    }

    /// The launches that take the pixels of a tile to its moments, with the moments' extents, or why there are none.
    pub fn encode_tile(&self, frames: usize, height: usize, width: usize, slice_bytes: usize) -> (tile: Result<
        (Vec<VideoStep>, Activation),
        Error,
    >)
        requires
            self.has_columns(),
            countable((Activation { frames, height, width, channels: 3 })),
        ensures
            match tile_flow(*self, (Activation { frames, height, width, channels: 3 }), slice_bytes) {
                Ok((list, last)) => tile matches Ok((steps, moments)) && steps@ == list && moments == last,
                Err(words) => tile matches Err(error) && error.says(words),
            },
    {
        let mut steps: Vec<VideoStep> = Vec::new();
        let pixels = Activation { frames, height, width, channels: 3 };
        proof {
            a_convolution_is_countable(Which::Input, self.input, pixels, 1, 1, None, false, slice_bytes);
        }
        let first = convolve(Which::Input, &self.input, &pixels, 1, 1, None, false, slice_bytes, &mut steps)?;
        let hidden = self.run_levels(&first, slice_bytes, &mut steps)?;
        proof {
            a_normalized_convolution_is_countable(Which::Output, self.output, hidden, None, slice_bytes);
        }
        let output = normalized_convolve(Which::Output, &self.output, &hidden, None, slice_bytes, &mut steps)?;
        let moments = convolve(Which::Quant, &self.quant, &output, 1, 1, None, false, slice_bytes, &mut steps)?;
        proof {
            let list = (tile_flow(*self, pixels, slice_bytes)->Ok_0).0;
            assert(steps@ =~= list);
        }
        Ok((steps, moments))
    }
}

/// The bytes of the scratch buffers of one tile.
#[derive(Clone, Copy, Debug, PartialEq, Eq, Structural)]
pub struct Scratch {
    pub columns: usize,
    pub partials: usize,
    pub statistics: usize,
}

/// The columns a convolution needs at a time for this many rows.
pub open spec fn slice_of(convolution: Convolution, rows: int, slice_bytes: usize) -> int {
    arithmetic::min(slice_rows(slice_bytes, convolution.columns), rows) * convolution.columns
}

fn slice(convolution: &Convolution, rows: usize, slice_bytes: usize) -> (columns: usize)
    requires
        has_columns(*convolution),
    ensures
        columns == slice_of(*convolution, rows as int, slice_bytes),
        columns * 2 <= arithmetic::max(slice_bytes as int, convolution.columns * 2),
{
    let held: usize = arithmetic::greatest(slice_bytes / (convolution.columns * 2), 1);
    let count: usize = arithmetic::least(held, rows);
    proof {
        let wide = convolution.columns as int;
        arithmetic::products_grow(count as int, wide, held as int, wide);
        if held > 1 {
            vstd::arithmetic::div_mod::lemma_fundamental_div_mod(slice_bytes as int, wide * 2);
            assert(held * (wide * 2) <= slice_bytes) by (nonlinear_arith)
                requires
                    slice_bytes as int == (wide * 2) * (slice_bytes as int / (wide * 2)) + slice_bytes as int % (wide
                        * 2),
                    slice_bytes as int % (wide * 2) >= 0,
                    held == slice_bytes as int / (wide * 2),
            ;
            assert(held * (wide * 2) == held * wide * 2) by (nonlinear_arith);
        } else {
            assert(held * wide == wide) by (nonlinear_arith)
                requires
                    held == 1,
            ;
        }
    }
    count * convolution.columns
}

/// What a level leaves of frames, lines and columns.
pub open spec fn level_extent(level: Level, before: int, input: Activation) -> Activation {
    match level.downsample {
        Some(downsample) => convolved(downsample, input, 2, time_stride_of(before)),
        None => input,
    }
}

/// What the first `count` levels leave of frames, lines and columns.
pub open spec fn extent_after(levels: Seq<Level>, input: Activation, count: int) -> Activation
    decreases count,
{
    if count <= 0 {
        input
    } else {
        level_extent(
            levels[count - 1],
            downsamples(levels, count - 1),
            extent_after(levels, input, count - 1),
        )
    }
}

/// The columns the first `count` blocks of a level need at a time.
pub open spec fn blocks_columns(blocks: Seq<ResnetBlock>, rows: int, slice_bytes: usize, count: int) -> int
    decreases count,
{
    if count <= 0 {
        0
    } else {
        arithmetic::max(
            blocks_columns(blocks, rows, slice_bytes, count - 1),
            arithmetic::max(
                slice_of(blocks[count - 1].conv1, rows, slice_bytes),
                slice_of(blocks[count - 1].conv2, rows, slice_bytes),
            ),
        )
    }
}

/// The columns a level needs at a time.
pub open spec fn level_columns(level: Level, before: int, input: Activation, slice_bytes: usize) -> int {
    let blocks = blocks_columns(level.blocks@, input.rows(), slice_bytes, level.blocks@.len() as int);
    match level.downsample {
        Some(downsample) => arithmetic::max(
            blocks,
            slice_of(downsample, level_extent(level, before, input).rows(), slice_bytes),
        ),
        None => blocks,
    }
}

/// The columns the first `count` levels need at a time.
pub open spec fn levels_columns(levels: Seq<Level>, input: Activation, slice_bytes: usize, count: int) -> int
    decreases count,
{
    if count <= 0 {
        0
    } else {
        arithmetic::max(
            levels_columns(levels, input, slice_bytes, count - 1),
            level_columns(
                levels[count - 1],
                downsamples(levels, count - 1),
                extent_after(levels, input, count - 1),
                slice_bytes,
            ),
        )
    }
}

/// The columns an encoder needs at a time. The widest rows come at full resolution or after a downsampling.
pub open spec fn widest_columns(encoder: CudaVideoEncoder, input: Activation, slice_bytes: usize) -> int {
    let levels = encoder.levels@.len() as int;
    arithmetic::max(
        arithmetic::max(
            slice_of(encoder.input, input.rows(), slice_bytes),
            levels_columns(encoder.levels@, input, slice_bytes, levels),
        ),
        slice_of(encoder.output, extent_after(encoder.levels@, input, levels).rows(), slice_bytes),
    )
}

/// Rows of a group norm's partial sums.
pub open spec fn norm_parts(pixels: int) -> int {
    arithmetic::ceil_div(pixels, 256)
}

proof fn an_extent_is_countable(level: Level, before: int, input: Activation)
    requires
        countable(input),
    ensures
        countable(level_extent(level, before, input)),
        level_extent(level, before, input).rows() <= input.rows(),
{
    if let Some(downsample) = level.downsample {
        a_convolution_leaves_no_more_rows(downsample, input, 2, time_stride_of(before));
    }
}

impl CudaVideoEncoder {
    fn level_slices(&self, index: usize, before: usize, input: &Activation, slice_bytes: usize) -> (columns: usize)
        requires
            self.has_columns(),
            index < self.levels@.len(),
            countable(*input),
        ensures
            columns == level_columns(self.levels@[index as int], before as int, *input, slice_bytes),
            columns * 2 <= usize::MAX,
    {
        let level = &self.levels[index];
        assert(level_has_columns(self.levels@[index as int]));
        let rows: usize = input.frames * input.height * input.width;
        let count: usize = level.blocks.len();
        let mut columns: usize = 0;
        for block in 0..count
            invariant
                count == level.blocks@.len(),
                level_has_columns(*level),
                columns == blocks_columns(level.blocks@, rows as int, slice_bytes, block as int),
                columns * 2 <= usize::MAX,
        {
            assert(block_has_columns(level.blocks@[block as int]));
            let held = level.blocks[block];
            let both: usize = arithmetic::greatest(
                slice(&held.conv1, rows, slice_bytes),
                slice(&held.conv2, rows, slice_bytes),
            );
            columns = arithmetic::greatest(columns, both);
        }
        if let Some(downsample) = &level.downsample {
            proof {
                an_extent_is_countable(*level, before as int, *input);
                a_convolution_leaves_no_more_rows(*downsample, *input, 2, time_stride_of(before as int));
            }
            let frames: usize = (input.frames - 1) / time_stride(before) + 1;
            let left: usize = frames * (input.height / 2) * (input.width / 2);
            columns = arithmetic::greatest(columns, slice(downsample, left, slice_bytes));
        }
        columns
    }

    /// The scratch buffers of a tile: the columns of the widest slice, and the partial sums and statistics of the group
    /// norms.
    pub fn scratch(&self, frames: usize, height: usize, width: usize, slice_bytes: usize) -> (scratch: Scratch)
        requires
            self.has_columns(),
            countable((Activation { frames, height, width, channels: 3 })),
            height * width <= usize::MAX,
            frames * norm_parts(height * width) * 32 * 2 * 4 <= usize::MAX,
            frames * 32 * 2 * 4 <= usize::MAX,
        ensures
            scratch.columns == widest_columns(
                *self,
                (Activation { frames, height, width, channels: 3 }),
                slice_bytes,
            ) * 2,
            scratch.partials == frames * norm_parts(height * width) * 32 * 2 * 4,
            scratch.statistics == frames * 32 * 2 * 4,
    {
        let pixels = Activation { frames, height, width, channels: 3 };
        let mut columns: usize = 0;
        let mut extent = pixels;
        let mut before: usize = 0;
        let count: usize = self.levels.len();
        for level in 0..count
            invariant
                count == self.levels@.len(),
                self.has_columns(),
                countable(extent),
                before <= level,
                before == downsamples(self.levels@, level as int),
                extent == extent_after(self.levels@, pixels, level as int),
                columns == levels_columns(self.levels@, pixels, slice_bytes, level as int),
                columns * 2 <= usize::MAX,
        {
            let held: usize = self.level_slices(level, before, &extent, slice_bytes);
            columns = arithmetic::greatest(columns, held);
            proof {
                an_extent_is_countable(self.levels@[level as int], before as int, extent);
            }
            if let Some(downsample) = &self.levels[level].downsample {
                proof {
                    a_convolution_leaves_no_more_rows(*downsample, extent, 2, time_stride_of(before as int));
                }
                extent = Activation {
                    frames: (extent.frames - 1) / time_stride(before) + 1,
                    height: extent.height / 2,
                    width: extent.width / 2,
                    channels: downsample.outputs,
                };
                before = before + 1;
            }
        }
        let rows: usize = frames * height * width;
        let first: usize = slice(&self.input, rows, slice_bytes);
        let last: usize = slice(&self.output, extent.frames * extent.height * extent.width, slice_bytes);
        columns = arithmetic::greatest(arithmetic::greatest(first, columns), last);
        let parts: usize = arithmetic::units(height * width, 256);
        proof {
            assert(0 <= frames * parts) by (nonlinear_arith);
        }
        Scratch {
            columns: columns * 2,
            partials: frames * parts * GROUPS * 2 * 4,
            statistics: frames * GROUPS * 2 * 4,
        }
    }
}

/// A convolution of an encoder.
pub open spec fn convolution_of(encoder: CudaVideoEncoder, which: Which) -> Convolution {
    match which {
        Which::Input => encoder.input,
        Which::First { level, block } => encoder.levels@[level as int].blocks@[block as int].conv1,
        Which::Second { level, block } => encoder.levels@[level as int].blocks@[block as int].conv2,
        Which::Shortcut { level, block } => encoder.levels@[level as int].blocks@[block as int].shortcut->0,
        Which::Downsample { level } => encoder.levels@[level as int].downsample->0,
        Which::Output => encoder.output,
        Which::Quant => encoder.quant,
    }
}

/// Whether an encoder has a convolution.
pub open spec fn holds(encoder: CudaVideoEncoder, which: Which) -> bool {
    let has = |level: usize, block: usize|
        level < encoder.levels@.len() && block < encoder.levels@[level as int].blocks@.len();
    match which {
        Which::Input | Which::Output | Which::Quant => true,
        Which::First { level, block } | Which::Second { level, block } => has(level, block),
        Which::Shortcut { level, block } => has(level, block)
            && encoder.levels@[level as int].blocks@[block as int].shortcut is Some,
        Which::Downsample { level } => level < encoder.levels@.len() && encoder.levels@[level as int].downsample is Some,
    }
}

/// The convolution of a launch.
pub open spec fn which_of(step: VideoStep) -> Option<Which> {
    match step {
        VideoStep::Make { which, .. } | VideoStep::Done { which } | VideoStep::GroupNorm { which, .. }
        | VideoStep::Statistics { which, .. } | VideoStep::Fused { which, .. }
        | VideoStep::Pointwise { which, .. } | VideoStep::Columns { which, .. } | VideoStep::Product { which, .. } => {
            Some(which)
        },
        VideoStep::Copy { .. } => None,
    }
}

/// Whether a launch reads the normalization in front of its convolution.
pub open spec fn normalizes(step: VideoStep) -> bool {
    step is GroupNorm || (step matches VideoStep::Fused { normalize, .. } && normalize)
}

/// Whether an activation has no more frames, lines and columns than another.
pub open spec fn within(input: Activation, most: Activation) -> bool {
    input.frames <= most.frames && input.height <= most.height && input.width <= most.width
}

/// Whether the encoder has the convolution of a launch and the normalization it reads, its columns fit in room for this
/// many, and its group norm's partial sums and statistics in room for those of `most`.
pub open spec fn fits(encoder: CudaVideoEncoder, columns: int, most: Activation, step: VideoStep) -> bool {
    &&& which_of(step) matches Some(which) ==> holds(encoder, which) && (normalizes(step) ==> which.norm_letters() is Some)
    &&& match step {
        VideoStep::Columns { which, input, stride, time_stride, first, count } => count * convolution_of(
            encoder,
            which,
        ).columns <= columns,
        VideoStep::GroupNorm { which, input } | VideoStep::Statistics { which, input } => {
            &&& input.frames <= most.frames
            &&& input.frames * norm_parts(input.height * input.width) <= most.frames * norm_parts(
                most.height * most.width,
            )
        },
        _ => true,
    }
}

/// A group norm of no more frames and pixels has no more partial sums.
proof fn parts_are_fewer(input: Activation, most: Activation)
    requires
        within(input, most),
    ensures
        input.frames * norm_parts(input.height * input.width) <= most.frames * norm_parts(most.height * most.width),
{
    let (few, many) = (input.height * input.width, most.height * most.width);
    arithmetic::products_grow(input.height as int, input.width as int, most.height as int, most.width as int);
    arithmetic::ceil_div_is_least(few, 256);
    arithmetic::ceil_div_is_least(many, 256);
    arithmetic::products_grow(input.frames as int, norm_parts(few), most.frames as int, norm_parts(many));
}

/// A convolution leaves no more frames, lines and columns than it takes.
proof fn a_convolution_is_within(convolution: Convolution, input: Activation, stride: usize, time_stride: usize)
    requires
        input.frames > 0,
        stride > 0,
        time_stride > 0,
    ensures
        within(convolved(convolution, input, stride, time_stride), input),
{
    vstd::arithmetic::div_mod::lemma_div_is_ordered_by_denominator(input.frames - 1, 1, time_stride as int);
    vstd::arithmetic::div_mod::lemma_div_is_ordered_by_denominator(input.height as int, 1, stride as int);
    vstd::arithmetic::div_mod::lemma_div_is_ordered_by_denominator(input.width as int, 1, stride as int);
    vstd::arithmetic::div_mod::lemma_div_pos_is_pos(input.frames - 1, time_stride as int);
    vstd::arithmetic::div_mod::lemma_div_pos_is_pos(input.height as int, stride as int);
    vstd::arithmetic::div_mod::lemma_div_pos_is_pos(input.width as int, stride as int);
}

spec fn steps_fit(encoder: CudaVideoEncoder, columns: int, most: Activation, steps: Seq<VideoStep>) -> bool {
    forall|i: int| 0 <= i < steps.len() ==> fits(encoder, columns, most, #[trigger] steps[i])
}

spec fn all_fit(encoder: CudaVideoEncoder, columns: int, most: Activation, flow: Flow) -> bool {
    flow is Ok ==> steps_fit(encoder, columns, most, (flow->Ok_0).0)
}

/// Whether two activations have the same frames, lines and columns.
spec fn same_extent(one: Activation, other: Activation) -> bool {
    one.frames == other.frames && one.height == other.height && one.width == other.width
}

proof fn slices_fit(
    encoder: CudaVideoEncoder,
    which: Which,
    input: Activation,
    stride: usize,
    time_stride: usize,
    accumulate: bool,
    slice: int,
    rows: int,
    first: int,
    columns: int,
    most: Activation,
)
    requires
        holds(encoder, which),
        slice >= 1,
        0 <= first,
        rows <= usize::MAX,
        arithmetic::min(slice, rows) * convolution_of(encoder, which).columns <= columns,
    ensures
        steps_fit(
            encoder,
            columns,
            most,
            slices(which, input, stride, time_stride, accumulate, slice, rows, first),
        ),
    decreases rows - first,
{
    if first < rows {
        let count = arithmetic::min(slice, rows - first);
        slices_fit(
            encoder,
            which,
            input,
            stride,
            time_stride,
            accumulate,
            slice,
            rows,
            first + count,
            columns,
            most,
        );
        let rest = slices(which, input, stride, time_stride, accumulate, slice, rows, first + count);
        let all = slices(which, input, stride, time_stride, accumulate, slice, rows, first);
        let wide = convolution_of(encoder, which).columns as int;
        arithmetic::products_grow(count, wide, arithmetic::min(slice, rows), wide);
        assert forall|i: int| 0 <= i < all.len() implies fits(encoder, columns, most, #[trigger] all[i]) by {
            if i == 0 {
                assert(all[0] == VideoStep::Columns {
                    which,
                    input,
                    stride,
                    time_stride,
                    first: first as usize,
                    count: count as usize,
                });
            } else if i == 1 {
                assert(all[1] is Product);
            } else {
                assert(all[i] == rest[i - 2]);
                assert(fits(encoder, columns, most, rest[i - 2]));
            }
        }
    }
}

proof fn passes_fit(
    encoder: CudaVideoEncoder,
    which: Which,
    input: Activation,
    stride: usize,
    time_stride: usize,
    accumulate: Option<Activation>,
    normalize: bool,
    slice_bytes: usize,
    columns: int,
    most: Activation,
)
    requires
        holds(encoder, which),
        normalize ==> which.norm_letters() is Some,
        within(input, most),
        countable(input),
        stride > 0,
        time_stride > 0,
        convolution_of(encoder, which).kernel == 1 || slice_of(
            convolution_of(encoder, which),
            convolved(convolution_of(encoder, which), input, stride, time_stride).rows(),
            slice_bytes,
        ) <= columns,
    ensures
        all_fit(
            encoder,
            columns,
            most,
            passes_flow(
                which,
                convolution_of(encoder, which),
                input,
                stride,
                time_stride,
                accumulate,
                normalize,
                slice_bytes,
            ),
        ),
{
    reveal(passes_flow);
    let convolution = convolution_of(encoder, which);
    let made = convolved(convolution, input, stride, time_stride);
    a_convolution_leaves_no_more_rows(convolution, input, stride, time_stride);
    let flow = passes_flow(
        which,
        convolution,
        input,
        stride,
        time_stride,
        accumulate,
        normalize,
        slice_bytes,
    );
    if flow is Ok {
        let steps = (flow->Ok_0).0;
        if convolution.kernel != 1 && !fusing(convolution, input, stride, time_stride) {
            let slice = slice_rows(slice_bytes, convolution.columns);
            slices_fit(
                encoder,
                which,
                input,
                stride,
                time_stride,
                accumulate is Some,
                slice,
                made.rows(),
                0,
                columns,
                most,
            );
            assert(steps == slices(
                which,
                input,
                stride,
                time_stride,
                accumulate is Some,
                slice,
                made.rows(),
                0,
            ));
        } else {
            parts_are_fewer(input, most);
            assert forall|i: int| 0 <= i < steps.len() implies fits(encoder, columns, most, #[trigger] steps[i]) by {
                assert(steps[i] !is Columns);
            }
        }
    }
}

proof fn a_convolution_fits(
    encoder: CudaVideoEncoder,
    which: Which,
    input: Activation,
    stride: usize,
    time_stride: usize,
    accumulate: Option<Activation>,
    normalize: bool,
    slice_bytes: usize,
    columns: int,
    most: Activation,
)
    requires
        holds(encoder, which),
        normalize ==> which.norm_letters() is Some,
        within(input, most),
        countable(input),
        stride > 0,
        time_stride > 0,
        convolution_of(encoder, which).kernel == 1 || slice_of(
            convolution_of(encoder, which),
            convolved(convolution_of(encoder, which), input, stride, time_stride).rows(),
            slice_bytes,
        ) <= columns,
    ensures
        all_fit(
            encoder,
            columns,
            most,
            convolve_flow(
                which,
                convolution_of(encoder, which),
                input,
                stride,
                time_stride,
                accumulate,
                normalize,
                slice_bytes,
            ),
        ),
{
    reveal(convolve_flow);
    let convolution = convolution_of(encoder, which);
    passes_fit(encoder, which, input, stride, time_stride, accumulate, normalize, slice_bytes, columns, most);
    if let Ok((passes, output)) = passes_flow(
        which,
        convolution,
        input,
        stride,
        time_stride,
        accumulate,
        normalize,
        slice_bytes,
    ) {
        let make = if accumulate is None {
            seq![VideoStep::Make { which, output }]
        } else {
            Seq::empty()
        };
        let all = make + passes + seq![VideoStep::Done { which }];
        assert forall|i: int| 0 <= i < all.len() implies fits(encoder, columns, most, #[trigger] all[i]) by {
            if make.len() <= i < make.len() + passes.len() {
                assert(all[i] == passes[i - make.len()]);
            }
        }
    }
}

proof fn a_normalized_convolution_fits(
    encoder: CudaVideoEncoder,
    which: Which,
    input: Activation,
    accumulate: Option<Activation>,
    slice_bytes: usize,
    columns: int,
    most: Activation,
)
    requires
        holds(encoder, which),
        which.norm_letters() is Some,
        within(input, most),
        countable(input),
        slice_of(convolution_of(encoder, which), input.rows(), slice_bytes) <= columns,
    ensures
        all_fit(
            encoder,
            columns,
            most,
            normalized_flow(which, convolution_of(encoder, which), input, accumulate, slice_bytes),
        ),
{
    reveal(normalized_flow);
    let convolution = convolution_of(encoder, which);
    assert(same_extent(convolved(convolution, input, 1, 1), input));
    a_convolution_fits(encoder, which, input, 1, 1, accumulate, true, slice_bytes, columns, most);
    a_convolution_fits(encoder, which, input, 1, 1, accumulate, false, slice_bytes, columns, most);
    parts_are_fewer(input, most);
    let norm = seq![VideoStep::GroupNorm { which, input }];
    let flow = convolve_flow(which, convolution, input, 1, 1, accumulate, false, slice_bytes);
    if flow is Ok {
        let rest = (flow->Ok_0).0;
        let all = norm + rest;
        assert forall|i: int| 0 <= i < all.len() implies fits(encoder, columns, most, #[trigger] all[i]) by {
            if i > 0 {
                assert(all[i] == rest[i - 1]);
            }
        }
    }
}

proof fn a_block_fits(
    encoder: CudaVideoEncoder,
    level: usize,
    index: usize,
    input: Activation,
    slice_bytes: usize,
    columns: int,
    most: Activation,
)
    requires
        within(input, most),
        countable(input),
        level < encoder.levels@.len(),
        index < encoder.levels@[level as int].blocks@.len(),
        ({
            let block = encoder.levels@[level as int].blocks@[index as int];
            &&& slice_of(block.conv1, input.rows(), slice_bytes) <= columns
            &&& slice_of(block.conv2, input.rows(), slice_bytes) <= columns
            &&& block.shortcut matches Some(shortcut) ==> shortcut.kernel == 1
        }),
    ensures
        ({
            let flow = block_flow(
                encoder.levels@[level as int].blocks@[index as int],
                level,
                index,
                input,
                slice_bytes,
            );
            &&& all_fit(encoder, columns, most, flow)
            &&& flow matches Ok((steps, last)) ==> same_extent(last, input) && countable(last)
        }),
{
    reveal(block_flow);
    let block = encoder.levels@[level as int].blocks@[index as int];
    let first = Which::First { level, block: index };
    let second = Which::Second { level, block: index };
    let short = Which::Shortcut { level, block: index };
    a_normalized_convolution_fits(encoder, first, input, None, slice_bytes, columns, most);
    a_normalized_convolution_is_countable(first, block.conv1, input, None, slice_bytes);
    let hidden = convolved(block.conv1, input, 1, 1);
    assert(same_extent(hidden, input));
    if let Some(shortcut) = block.shortcut {
        a_convolution_fits(encoder, short, input, 1, 1, None, false, slice_bytes, columns, most);
        a_convolution_is_countable(short, shortcut, input, 1, 1, None, false, slice_bytes);
        assert(same_extent(convolved(shortcut, input, 1, 1), input));
    }
    if normalized_flow(first, block.conv1, input, None, slice_bytes) is Ok {
        let flow = shortcut_flow(block, level, index, input, slice_bytes);
        if let Ok((steps, residual)) = flow {
            a_normalized_convolution_fits(encoder, second, hidden, Some(residual), slice_bytes, columns, most);
            a_normalized_convolution_is_countable(second, block.conv2, hidden, Some(residual), slice_bytes);
        }
    }
}

proof fn blocks_fit(
    encoder: CudaVideoEncoder,
    level: usize,
    input: Activation,
    slice_bytes: usize,
    columns: int,
    most: Activation,
    count: int,
)
    requires
        within(input, most),
        countable(input),
        level < encoder.levels@.len(),
        0 <= count <= encoder.levels@[level as int].blocks@.len(),
        blocks_columns(encoder.levels@[level as int].blocks@, input.rows(), slice_bytes, count) <= columns,
        has_plain_shortcuts(encoder.levels@[level as int]),
    ensures
        ({
            let flow = blocks_flow(encoder.levels@[level as int].blocks@, level, input, slice_bytes, count);
            &&& all_fit(encoder, columns, most, flow)
            &&& flow matches Ok((steps, last)) ==> same_extent(last, input) && countable(last)
        }),
    decreases count,
{
    if count > 0 {
        blocks_fit(encoder, level, input, slice_bytes, columns, most, count - 1);
        let blocks = encoder.levels@[level as int].blocks@;
        let before = blocks_flow(blocks, level, input, slice_bytes, count - 1);
        if let Ok((steps, middle)) = before {
            let held = encoder.levels@[level as int];
            assert(held.blocks.len() == held.blocks@.len());
            assert(blocks[count - 1] == held.blocks@[count - 1]);
            assert(middle.rows() == input.rows());
            a_block_fits(encoder, level, (count - 1) as usize, middle, slice_bytes, columns, most);
        }
    }
}

/// Whether the shortcuts of a level are pointwise.
pub open spec fn has_plain_shortcuts(level: Level) -> bool {
    forall|i: int|
        0 <= i < level.blocks@.len() ==> ((#[trigger] level.blocks@[i]).shortcut matches Some(shortcut)
            ==> shortcut.kernel == 1)
}

proof fn a_level_fits(
    encoder: CudaVideoEncoder,
    level: usize,
    before: int,
    input: Activation,
    extent: Activation,
    slice_bytes: usize,
    columns: int,
    most: Activation,
)
    requires
        within(input, most),
        countable(input),
        same_extent(input, extent),
        level < encoder.levels@.len(),
        level_columns(encoder.levels@[level as int], before, extent, slice_bytes) <= columns,
        has_plain_shortcuts(encoder.levels@[level as int]),
    ensures
        ({
            let flow = level_flow(encoder.levels@[level as int], level, before, input, slice_bytes);
            &&& all_fit(encoder, columns, most, flow)
            &&& flow matches Ok((steps, last)) ==> countable(last) && within(last, most) && same_extent(
                last,
                level_extent(encoder.levels@[level as int], before, extent),
            )
        }),
{
    reveal(level_flow);
    let held = encoder.levels@[level as int];
    blocks_fit(encoder, level, input, slice_bytes, columns, most, held.blocks@.len() as int);
    let flow = blocks_flow(held.blocks@, level, input, slice_bytes, held.blocks@.len() as int);
    if let Ok((steps, middle)) = flow {
        if let Some(downsample) = held.downsample {
            let which = Which::Downsample { level };
            let stride = time_stride_of(before);
            assert(convolved(downsample, middle, 2, stride) == convolved(downsample, extent, 2, stride));
            a_convolution_fits(encoder, which, middle, 2, stride, None, false, slice_bytes, columns, most);
            a_convolution_is_countable(which, downsample, middle, 2, stride, None, false, slice_bytes);
            a_convolution_is_within(downsample, middle, 2, stride);
        }
    }
}

proof fn levels_fit(
    encoder: CudaVideoEncoder,
    input: Activation,
    extent: Activation,
    slice_bytes: usize,
    columns: int,
    most: Activation,
    count: int,
)
    requires
        within(input, most),
        countable(input),
        same_extent(input, extent),
        0 <= count <= encoder.levels@.len(),
        levels_columns(encoder.levels@, extent, slice_bytes, count) <= columns,
        forall|i: int| 0 <= i < encoder.levels@.len() ==> has_plain_shortcuts(#[trigger] encoder.levels@[i]),
    ensures
        ({
            let flow = levels_flow(encoder.levels@, input, slice_bytes, count);
            &&& all_fit(encoder, columns, most, flow)
            &&& flow matches Ok((steps, last)) ==> countable(last) && within(last, most) && same_extent(
                last,
                extent_after(encoder.levels@, extent, count),
            )
        }),
    decreases count,
{
    if count > 0 {
        levels_fit(encoder, input, extent, slice_bytes, columns, most, count - 1);
        if let Ok((steps, middle)) = levels_flow(encoder.levels@, input, slice_bytes, count - 1) {
            assert(encoder.levels.len() == encoder.levels@.len());
            assert(has_plain_shortcuts(encoder.levels@[count - 1]));
            a_level_fits(
                encoder,
                (count - 1) as usize,
                downsamples(encoder.levels@, count - 1),
                middle,
                extent_after(encoder.levels@, extent, count - 1),
                slice_bytes,
                columns,
                most,
            );
        }
    }
}

/// The encoder has every convolution and every normalization that a tile runs. Every slice of columns that a tile builds,
/// and the partial sums and statistics of its group norms, fit in the scratch buffers that are made for the tile, where
/// the shortcuts and the last convolution are pointwise.
pub proof fn a_tile_stays_in_its_scratch(encoder: CudaVideoEncoder, input: Activation, slice_bytes: usize, step: int)
    requires
        countable(input),
        encoder.quant.kernel == 1,
        forall|i: int| 0 <= i < encoder.levels@.len() ==> has_plain_shortcuts(#[trigger] encoder.levels@[i]),
        tile_flow(encoder, input, slice_bytes) is Ok,
        0 <= step < (tile_flow(encoder, input, slice_bytes)->Ok_0).0.len(),
    ensures
        fits(
            encoder,
            widest_columns(encoder, input, slice_bytes),
            input,
            (tile_flow(encoder, input, slice_bytes)->Ok_0).0[step],
        ),
{
    let most = input;
    let columns = widest_columns(encoder, input, slice_bytes);
    let levels = encoder.levels@.len() as int;
    let first = convolved(encoder.input, input, 1, 1);
    assert(same_extent(first, input));
    a_convolution_fits(encoder, Which::Input, input, 1, 1, None, false, slice_bytes, columns, most);
    a_convolution_is_countable(Which::Input, encoder.input, input, 1, 1, None, false, slice_bytes);
    levels_fit(encoder, first, input, slice_bytes, columns, most, levels);
    if let Ok((steps, hidden)) = levels_flow(encoder.levels@, first, slice_bytes, levels) {
        a_normalized_convolution_fits(encoder, Which::Output, hidden, None, slice_bytes, columns, most);
        a_normalized_convolution_is_countable(Which::Output, encoder.output, hidden, None, slice_bytes);
        let output = convolved(encoder.output, hidden, 1, 1);
        a_convolution_fits(encoder, Which::Quant, output, 1, 1, None, false, slice_bytes, columns, most);
    }
    assert(all_fit(encoder, columns, most, tile_flow(encoder, input, slice_bytes)));
}

/// How an input is encoded.
#[derive(Clone, Copy, Debug, PartialEq, Eq, Structural)]
pub struct Encoding {
    /// Frames of a group, the last padded by repeating its last frame.
    pub clip_frames: usize,
    /// Latent frames of a group.
    pub tokens: usize,
    pub clips: usize,
    pub latent_frames: usize,
    pub latent_height: usize,
    pub latent_width: usize,
}

/// The frames and the latent frames of a group, and the latent frames that are dropped from the end.
pub open spec fn grouping(temporal: Temporal) -> (int, int, int) {
    match temporal {
        Temporal::Frame => (1, 1, 0),
        Temporal::Clip => (17, 5, 3),
    }
}

/// What an input is refused for: a side that is no multiple of 16, or values that are not its pixels.
pub open spec fn input_refusal(values: usize, frames: usize, height: usize, width: usize) -> Option<Seq<char>> {
    let size = text::decimal(width as nat) + "×"@ + text::decimal(height as nat);
    if height % SPATIAL_RATIO != 0 || width % SPATIAL_RATIO != 0 {
        Some(size + " is not a multiple of "@ + text::decimal(SPATIAL_RATIO as nat))
    } else if frames == 0 || values != frames * height * width * 3 {
        Some(
            text::decimal(values as nat) + " values are not "@ + text::decimal(frames as nat) + " frames of "@ + size
                + " pixels"@,
        )
    } else {
        None
    }
}

/// Whether `encoding` is how frames of this size are encoded.
pub open spec fn is_encoding(temporal: Temporal, frames: usize, height: usize, width: usize, encoding: Encoding) -> bool {
    let (clip_frames, tokens, dropped) = grouping(temporal);
    &&& encoding.clip_frames == clip_frames
    &&& encoding.tokens == tokens
    &&& encoding.clips == arithmetic::ceil_div(frames as int, clip_frames)
    &&& encoding.latent_frames == encoding.clips * tokens - dropped
    &&& encoding.latent_height == height / SPATIAL_RATIO
    &&& encoding.latent_width == width / SPATIAL_RATIO
}

fn push_extent(message: &mut String, width: usize, height: usize)
    ensures
        final(message)@ == old(message)@ + (text::decimal(width as nat) + "×"@ + text::decimal(height as nat)),
{
    let ghost before = message@;
    text::push_size(message, width);
    message.append("×");
    text::push_size(message, height);
    assert(message@ =~= before + (text::decimal(width as nat) + "×"@ + text::decimal(height as nat)));
}

impl CudaVideoEncoder {
    /// Latent frames a clip of `frames` frames gives: five per group of seventeen, less the three
    /// that are dropped from the end of the run.
    pub fn latent_frames(frames: usize) -> (latent: usize)
        requires
            0 < frames,
            arithmetic::ceil_div(frames as int, 17) * 5 <= usize::MAX,
        ensures
            latent == arithmetic::ceil_div(frames as int, 17) * 5 - 3,
    {
        proof {
            arithmetic::ceil_div_is_least(frames as int, 17);
        }
        arithmetic::units(frames, CLIP_LENGTH) * CHUNK_TOKENS - TOKEN_DROP
    }

    /// How `frames` frames of pixels are encoded, tile by tile and group by group, or why they are not. A single frame
    /// is its own group and keeps its one latent frame.
    pub fn encode(&self, values: usize, frames: usize, height: usize, width: usize) -> (encoding: Result<Encoding, Error>)
        requires
            frames * height <= usize::MAX,
            frames * height * width <= usize::MAX,
            frames * height * width * 3 <= usize::MAX,
            arithmetic::ceil_div(frames as int, 17) * 5 <= usize::MAX,
        ensures
            match input_refusal(values, frames, height, width) {
                Some(words) => encoding matches Err(error) && error.says(words),
                None => encoding matches Ok(encoding) && is_encoding(
                    self.temporal,
                    frames,
                    height,
                    width,
                    encoding,
                ) && encoding.latent_frames > 0,
            },
    {
        if height % SPATIAL_RATIO != 0 || width % SPATIAL_RATIO != 0 {
            let mut message = String::from_str("");
            push_extent(&mut message, width, height);
            message.append(" is not a multiple of ");
            text::push_size(&mut message, SPATIAL_RATIO);
            proof {
                reveal_strlit("");
                assert(message@ =~= input_refusal(values, frames, height, width)->0);
            }
            return Err(Error::Model(message));
        }
        if frames == 0 || values != frames * height * width * 3 {
            let mut message = String::from_str("");
            text::push_size(&mut message, values);
            message.append(" values are not ");
            text::push_size(&mut message, frames);
            message.append(" frames of ");
            push_extent(&mut message, width, height);
            message.append(" pixels");
            proof {
                reveal_strlit("");
                assert(message@ =~= input_refusal(values, frames, height, width)->0);
            }
            return Err(Error::Model(message));
        }
        proof {
            arithmetic::ceil_div_is_least(frames as int, 17);
            arithmetic::ceil_div_is_least(frames as int, 1);
        }
        let (clip_frames, tokens, dropped): (usize, usize, usize) = match self.temporal {
            Temporal::Frame => (1, 1, 0),
            Temporal::Clip => (CLIP_LENGTH, CHUNK_TOKENS, TOKEN_DROP),
        };
        let clips: usize = arithmetic::units(frames, clip_frames);
        Ok(
            Encoding {
                clip_frames,
                tokens,
                clips,
                latent_frames: clips * tokens - dropped,
                latent_height: height / SPATIAL_RATIO,
                latent_width: width / SPATIAL_RATIO,
            },
        )
    }

    /// How a picture `[height, width, 3]` is encoded, height and width multiples of 16, or why it is not.
    pub fn encode_picture(&self, shape: &Vec<usize>, values: usize) -> (encoding: Result<Encoding, Error>)
        requires
            shape@.len() == 3 ==> shape@[0] * shape@[1] * 3 <= usize::MAX && shape@[0] * shape@[1] <= usize::MAX,
        ensures
            if shape@.len() != 3 || shape@[2] != 3 {
                encoding matches Err(error) && error.says("a picture is [height, width, 3]"@)
            } else if self.temporal != Temporal::Frame {
                encoding matches Err(error) && error.says("this encoder keeps the temporal taps of a clip"@)
            } else {
                match input_refusal(values, 1, shape@[0], shape@[1]) {
                    Some(words) => encoding matches Err(error) && error.says(words),
                    None => encoding matches Ok(encoding) && is_encoding(
                        self.temporal,
                        1,
                        shape@[0],
                        shape@[1],
                        encoding,
                    ),
                }
            },
    {
        if shape.len() != 3 || shape[2] != 3 {
            return Err(Error::Model(String::from_str("a picture is [height, width, 3]")));
        }
        if self.temporal != Temporal::Frame {
            return Err(Error::Model(String::from_str("this encoder keeps the temporal taps of a clip")));
        }
        proof {
            arithmetic::ceil_div_is_least(1, 17);
            assert(1 * shape@[0] * shape@[1] == shape@[0] * shape@[1]);
        }
        self.encode(values, 1, shape[0], shape[1])
    }

    /// How a clip `[frames, height, width, 3]` is encoded, height and width multiples of 16, or why it is not.
    pub fn encode_clip(&self, shape: &Vec<usize>, values: usize) -> (encoding: Result<Encoding, Error>)
        requires
            shape@.len() == 4 ==> {
                &&& shape@[0] * shape@[1] <= usize::MAX
                &&& shape@[0] * shape@[1] * shape@[2] <= usize::MAX
                &&& shape@[0] * shape@[1] * shape@[2] * 3 <= usize::MAX
                &&& arithmetic::ceil_div(shape@[0] as int, 17) * 5 <= usize::MAX
            },
        ensures
            if shape@.len() != 4 || shape@[3] != 3 {
                encoding matches Err(error) && error.says("a clip is [frames, height, width, 3]"@)
            } else if self.temporal != Temporal::Clip {
                encoding matches Err(error) && error.says("this encoder keeps only the last temporal tap"@)
            } else {
                match input_refusal(values, shape@[0], shape@[1], shape@[2]) {
                    Some(words) => encoding matches Err(error) && error.says(words),
                    None => encoding matches Ok(encoding) && is_encoding(
                        self.temporal,
                        shape@[0],
                        shape@[1],
                        shape@[2],
                        encoding,
                    ),
                }
            },
    {
        if shape.len() != 4 || shape[3] != 3 {
            return Err(Error::Model(String::from_str("a clip is [frames, height, width, 3]")));
        }
        if self.temporal != Temporal::Clip {
            return Err(Error::Model(String::from_str("this encoder keeps only the last temporal tap")));
        }
        self.encode(values, shape[0], shape[1], shape[2])
    }
}

/// The latent frames a group gives.
pub open spec fn kept_tokens(encoding: Encoding, clip: int) -> int {
    arithmetic::min(encoding.tokens as int, encoding.latent_frames - clip * encoding.tokens)
}

impl Encoding {
    /// The latent frames a group gives, of which the first is number `clip · tokens`.
    pub fn group_tokens(&self, clip: usize) -> (kept: usize)
        requires
            clip < self.clips,
            self.clips * self.tokens <= usize::MAX,
            clip * self.tokens <= self.latent_frames,
        ensures
            kept == kept_tokens(*self, clip as int),
    {
        proof {
            arithmetic::products_grow(clip as int, self.tokens as int, self.clips as int, self.tokens as int);
        }
        arithmetic::least(self.tokens, self.latent_frames - clip * self.tokens)
    }
}

/// Every latent frame comes from one group, as one of those that the group gives.
pub proof fn every_latent_frame_comes_once(
    temporal: Temporal,
    frames: usize,
    height: usize,
    width: usize,
    encoding: Encoding,
    latent: int,
)
    requires
        frames > 0,
        is_encoding(temporal, frames, height, width, encoding),
        0 <= latent < encoding.latent_frames,
    ensures
        ({
            let (clip, token) = (latent / encoding.tokens as int, latent % encoding.tokens as int);
            &&& 0 <= clip < encoding.clips
            &&& 0 <= token < kept_tokens(encoding, clip)
            &&& latent == clip * encoding.tokens + token
        }),
        forall|clip: int, token: int|
            0 <= clip < encoding.clips && 0 <= token < kept_tokens(encoding, clip) && latent == #[trigger] (clip
                * encoding.tokens) + #[trigger] (token + 0) ==> clip == latent / encoding.tokens as int && token
                == latent % encoding.tokens as int,
{
    let tokens = encoding.tokens as int;
    vstd::arithmetic::div_mod::lemma_fundamental_div_mod(latent, tokens);
    let (clip, token) = (latent / tokens, latent % tokens);
    assert(latent == clip * tokens + token) by (nonlinear_arith)
        requires
            latent == tokens * clip + token,
    ;
    assert(clip < encoding.clips) by (nonlinear_arith)
        requires
            clip * tokens <= latent,
            latent < encoding.clips * tokens,
            tokens > 0,
    ;
    assert forall|other: int, place: int|
        0 <= other < encoding.clips && 0 <= place < kept_tokens(encoding, other) && latent == #[trigger] (other
            * encoding.tokens) + #[trigger] (place + 0) implies other == clip && place == token by {
        arithmetic::quotient_of_nested(other, place, tokens);
    }
}

/// The place of a value of the latent `[channels, latent frames, pixels]`.
pub open spec fn latent_place(latent_frames: int, plane: int, channel: int, frame: int, pixel: int) -> int {
    (channel * latent_frames + frame) * plane + pixel
}

/// Puts the moments of one latent frame, `[pixels, 48]`, to their places among the means and the log variances,
/// `[channels, latent frames, pixels]`.
pub fn place_moments<T: Copy>(
    moments: &Vec<T>,
    plane: usize,
    latent_frames: usize,
    latent_frame: usize,
    mean: &mut Vec<T>,
    variance: &mut Vec<T>,
)
    requires
        latent_frame < latent_frames,
        moments@.len() == plane * 48,
        old(mean)@.len() == 24 * latent_frames * plane,
        old(variance)@.len() == 24 * latent_frames * plane,
    ensures
        final(mean)@.len() == old(mean)@.len(),
        final(variance)@.len() == old(variance)@.len(),
        forall|channel: int, frame: int, pixel: int|
            #![trigger latent_place(latent_frames as int, plane as int, channel, frame, pixel)]
            0 <= channel < 24 && 0 <= frame < latent_frames && 0 <= pixel < plane ==> {
                let place = latent_place(latent_frames as int, plane as int, channel, frame, pixel);
                if frame == latent_frame {
                    &&& final(mean)@[place] == moments@[pixel * 48 + channel]
                    &&& final(variance)@[place] == moments@[pixel * 48 + 24 + channel]
                } else {
                    &&& final(mean)@[place] == old(mean)@[place]
                    &&& final(variance)@[place] == old(variance)@[place]
                }
            },
{
    let size: usize = moments.len();
    let total: usize = mean.len();
    let ghost old_mean = mean@;
    let ghost old_variance = variance@;
    let ghost frames = latent_frames as int;
    let ghost wide = plane as int;
    for channel in 0..LATENT_CHANNELS
        invariant
            frames == latent_frames,
            wide == plane,
            latent_frame < latent_frames,
            size == moments@.len(),
            size == plane * 48,
            total == 24 * latent_frames * plane,
            mean@.len() == total,
            variance@.len() == total,
            old_mean.len() == total,
            old_variance.len() == total,
            forall|c: int, f: int, p: int|
                #![trigger latent_place(frames, wide, c, f, p)]
                0 <= c < 24 && 0 <= f < frames && 0 <= p < wide ==> {
                    let place = latent_place(frames, wide, c, f, p);
                    if f == latent_frame && c < channel {
                        mean@[place] == moments@[p * 48 + c] && variance@[place] == moments@[p * 48 + 24 + c]
                    } else {
                        mean@[place] == old_mean[place] && variance@[place] == old_variance[place]
                    }
                },
    {
        for pixel in 0..plane
            invariant
                frames == latent_frames,
                wide == plane,
                channel < 24,
                latent_frame < latent_frames,
                size == moments@.len(),
                size == plane * 48,
                total == 24 * latent_frames * plane,
                mean@.len() == total,
                variance@.len() == total,
                old_mean.len() == total,
                old_variance.len() == total,
                forall|c: int, f: int, p: int|
                    #![trigger latent_place(frames, wide, c, f, p)]
                    0 <= c < 24 && 0 <= f < frames && 0 <= p < wide ==> {
                        let place = latent_place(frames, wide, c, f, p);
                        if f == latent_frame && (c < channel || (c == channel && p < pixel)) {
                            mean@[place] == moments@[p * 48 + c] && variance@[place] == moments@[p * 48 + 24 + c]
                        } else {
                            mean@[place] == old_mean[place] && variance@[place] == old_variance[place]
                        }
                    },
        {
            proof {
                a_latent_place_is_inside(
                    frames,
                    wide,
                    channel as int,
                    latent_frame as int,
                    pixel as int,
                );
            }
            let line: usize = channel * latent_frames + latent_frame;
            let place: usize = line * plane + pixel;
            let ghost before_mean = mean@;
            let ghost before_variance = variance@;
            mean[place] = moments[pixel * 48 + channel];
            variance[place] = moments[pixel * 48 + 24 + channel];
            proof {
                assert forall|c: int, f: int, p: int|
                    #![trigger latent_place(frames, wide, c, f, p)]
                    0 <= c < 24 && 0 <= f < frames && 0 <= p < wide implies {
                    let spot = latent_place(frames, wide, c, f, p);
                    if f == latent_frame && (c < channel || (c == channel && p < pixel + 1)) {
                        mean@[spot] == moments@[p * 48 + c] && variance@[spot] == moments@[p * 48 + 24 + c]
                    } else {
                        mean@[spot] == old_mean[spot] && variance@[spot] == old_variance[spot]
                    }
                } by {
                    a_latent_place_is_inside(frames, wide, c, f, p);
                    latent_places_tell_apart(
                        frames,
                        wide,
                        c,
                        f,
                        p,
                        channel as int,
                        latent_frame as int,
                        pixel as int,
                    );
                    let spot = latent_place(frames, wide, c, f, p);
                    if spot != place {
                        assert(mean@[spot] == before_mean[spot]);
                        assert(variance@[spot] == before_variance[spot]);
                    }
                }
            }
        }
    }
}

proof fn a_latent_place_is_inside(frames: int, plane: int, channel: int, frame: int, pixel: int)
    requires
        0 <= channel < 24,
        0 <= frame < frames,
        0 <= pixel < plane,
    ensures
        0 <= channel * frames,
        0 <= channel * frames + frame <= latent_place(frames, plane, channel, frame, pixel),
        0 <= (channel * frames + frame) * plane,
        0 <= latent_place(frames, plane, channel, frame, pixel) < 24 * frames * plane,
{
    arithmetic::nested_is_inside(channel, 24, frame, frames);
    let line = channel * frames + frame;
    arithmetic::nested_is_inside(line, 24 * frames, pixel, plane);
    assert(line <= line * plane) by (nonlinear_arith)
        requires
            line >= 0,
            plane >= 1,
    ;
    assert(0 <= channel * frames) by (nonlinear_arith)
        requires
            channel >= 0,
            frames >= 0,
    ;
}

/// Different values have different places.
proof fn latent_places_tell_apart(
    frames: int,
    plane: int,
    channel: int,
    frame: int,
    pixel: int,
    other_channel: int,
    other_frame: int,
    other_pixel: int,
)
    requires
        0 <= channel,
        0 <= frame < frames,
        0 <= pixel < plane,
        0 <= other_channel,
        0 <= other_frame < frames,
        0 <= other_pixel < plane,
    ensures
        latent_place(frames, plane, channel, frame, pixel) == latent_place(
            frames,
            plane,
            other_channel,
            other_frame,
            other_pixel,
        ) ==> channel == other_channel && frame == other_frame && pixel == other_pixel,
{
    let one = channel * frames + frame;
    let other = other_channel * frames + other_frame;
    assert(0 <= channel * frames && 0 <= other_channel * frames) by (nonlinear_arith)
        requires
            channel >= 0,
            other_channel >= 0,
            frames >= 0,
    ;
    arithmetic::quotient_of_nested(one, pixel, plane);
    arithmetic::quotient_of_nested(other, other_pixel, plane);
    arithmetic::quotient_of_nested(channel, frame, frames);
    arithmetic::quotient_of_nested(other_channel, other_frame, frames);
}

} // verus!
