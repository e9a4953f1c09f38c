//! The video encoder of a checkpoint file.
use crate::checkpoint;
use crate::checkpoint::TensorInfo;
use crate::model;
use crate::model::Error;
use crate::video_encoder;
use crate::video_encoder::{Convolution, CudaVideoEncoder, Level, ResnetBlock, Temporal, Which};
use vstd::prelude::*;

verus! {

/// Whether the columns of every convolution of a file can be counted.
pub open spec fn is_countable(file: Seq<TensorInfo>) -> bool {
    forall|i: int|
        0 <= i < file.len() ==> checkpoint::elements((#[trigger] file[i]).shape@) <= usize::MAX && (file[i].shape@.len()
            == 5 ==> file[i].shape@[1] * 27 + 8 <= usize::MAX)
}

/// That the tensors of a name are there, or the first of them that is missing.
pub open spec fn norm_of(file: Seq<TensorInfo>, name: Seq<char>) -> Result<(), Seq<char>> {
    if checkpoint::place_of(file, name + ".weight"@) is None {
        Err(model::missing_tensor(name + ".weight"@))
    } else if checkpoint::place_of(file, name + ".bias"@) is None {
        Err(model::missing_tensor(name + ".bias"@))
    } else {
        Ok(())
    }
}

fn norm(file: &Vec<TensorInfo>, name: &str) -> (result: Result<(), Error>)
    ensures
        checkpoint::gave(result, norm_of(file@, name@)),
{
    checkpoint::need_part(file, name, ".weight")?;
    checkpoint::need_part(file, name, ".bias")?;
    Ok(())
}

/// A convolution of a file, of which the last `taps` temporal taps are kept.
pub open spec fn convolution_of(file: Seq<TensorInfo>, name: Seq<char>, taps: usize) -> Result<Convolution, Seq<char>> {
    match norm_of(file, name) {
        Err(words) => Err(words),
        Ok(_) => Convolution::of(
            name,
            file[checkpoint::place_of(file, name + ".weight"@)->0].shape@,
            taps,
        ),
    }
}

fn convolution(file: &Vec<TensorInfo>, name: &str, taps: usize) -> (convolution: Result<Convolution, Error>)
    requires
        is_countable(file@),
        taps <= 3,
    ensures
        checkpoint::gave(convolution, convolution_of(file@, name@, taps)),
{
    let weight: usize = checkpoint::need_part(file, name, ".weight")?;
    checkpoint::need_part(file, name, ".bias")?;
    Convolution::load(name, &file[weight].shape, taps)
}

/// A convolution that a file may hold.
pub open spec fn optional_of(
    file: Seq<TensorInfo>,
    name: Seq<char>,
    taps: usize,
) -> Result<Option<Convolution>, Seq<char>> {
    if checkpoint::place_of(file, name + ".weight"@) is None {
        Ok(None)
    } else {
        match convolution_of(file, name, taps) {
            Err(words) => Err(words),
            Ok(found) => Ok(Some(found)),
        }
    }
}

fn optional(file: &Vec<TensorInfo>, name: &str, taps: usize) -> (found: Result<Option<Convolution>, Error>)
    requires
        is_countable(file@),
        taps <= 3,
    ensures
        checkpoint::gave(found, optional_of(file@, name@, taps)),
{
    if checkpoint::find(file, &checkpoint::joined(name, ".weight")).is_none() {
        return Ok(None);
    }
    let found = convolution(file, name, taps)?;
    Ok(Some(found))
}

/// What the names of a level begin with.
pub open spec fn level_name(level: nat) -> Seq<char> {
    checkpoint::numbered("encoder.down."@, level, ""@)
}

/// A block of a file.
pub open spec fn block_of(file: Seq<TensorInfo>, level: Seq<char>, block: nat, taps: usize) -> Result<
    ResnetBlock,
    Seq<char>,
> {
    let name = checkpoint::numbered(level + ".block."@, block, ""@);
    match norm_of(file, name + ".norm1"@) {
        Err(words) => Err(words),
        Ok(_) => match convolution_of(file, name + ".conv1"@, taps) {
            Err(words) => Err(words),
            Ok(conv1) => match norm_of(file, name + ".norm2"@) {
                Err(words) => Err(words),
                Ok(_) => match convolution_of(file, name + ".conv2"@, taps) {
                    Err(words) => Err(words),
                    Ok(conv2) => match optional_of(file, name + ".nin_shortcut"@, taps) {
                        Err(words) => Err(words),
                        Ok(shortcut) => Ok(ResnetBlock { conv1, conv2, shortcut }),
                    },
                },
            },
        },
    }
}

fn block(file: &Vec<TensorInfo>, level: &str, index: usize, taps: usize) -> (block: Result<ResnetBlock, Error>)
    requires
        is_countable(file@),
        taps <= 3,
    ensures
        checkpoint::gave(block, block_of(file@, level@, index as nat, taps)),
{
    let start = checkpoint::joined(level, ".block.");
    let name = checkpoint::numbered_name(start.as_str(), index, "");
    norm(file, checkpoint::joined(name.as_str(), ".norm1").as_str())?;
    let conv1 = convolution(file, checkpoint::joined(name.as_str(), ".conv1").as_str(), taps)?;
    norm(file, checkpoint::joined(name.as_str(), ".norm2").as_str())?;
    let conv2 = convolution(file, checkpoint::joined(name.as_str(), ".conv2").as_str(), taps)?;
    let shortcut = optional(file, checkpoint::joined(name.as_str(), ".nin_shortcut").as_str(), taps)?;
    Ok(ResnetBlock { conv1, conv2, shortcut })
}

/// The blocks of a level by their numbers.
pub open spec fn block_row(file: Seq<TensorInfo>, level: Seq<char>, taps: usize) -> spec_fn(int) -> Result<
    ResnetBlock,
    Seq<char>,
> {
    |index: int| block_of(file, level, index as nat, taps)
}

/// The blocks of a level: those numbered from zero on whose first convolution is there.
pub open spec fn blocks_of(file: Seq<TensorInfo>, level: Seq<char>, taps: usize) -> Result<
    Seq<ResnetBlock>,
    Seq<char>,
> {
    checkpoint::all_of(
        block_row(file, level, taps),
        checkpoint::count_of(file, level + ".block."@, ".conv1.weight"@) as int,
    )
}

fn blocks(file: &Vec<TensorInfo>, level: &str, taps: usize) -> (blocks: Result<Vec<ResnetBlock>, Error>)
    requires
        is_countable(file@),
        taps <= 3,
    ensures
        checkpoint::gave_all(blocks, blocks_of(file@, level@, taps)),
{
    let start = checkpoint::joined(level, ".block.");
    let count: usize = checkpoint::count_numbered(file, start.as_str(), ".conv1.weight");
    let ghost row = block_row(file@, level@, taps);
    let mut blocks: Vec<ResnetBlock> = Vec::new();
    for index in 0..count
        invariant
            is_countable(file@),
            taps <= 3,
            row == block_row(file@, level@, taps),
            checkpoint::all_of(row, index as int) == Ok::<Seq<ResnetBlock>, Seq<char>>(blocks@),
            blocks_of(file@, level@, taps) == checkpoint::all_of(row, count as int),
    {
        match block(file, level, index, taps) {
            Ok(one) => {
                blocks.push(one);
            },
            Err(error) => {
                proof {
                    checkpoint::a_refusal_stays(row, index + 1, count as int);
                }
                return Err(error);
            },
        }
    }
    Ok(blocks)
}

/// What a level holds.
pub ghost struct LevelParts {
    pub blocks: Seq<ResnetBlock>,
    pub downsample: Option<Convolution>,
}

impl View for Level {
    type V = LevelParts;

    open spec fn view(&self) -> LevelParts {
        LevelParts { blocks: self.blocks@, downsample: self.downsample }
    }
}

/// A level of a file.
pub open spec fn level_of(file: Seq<TensorInfo>, index: nat, taps: usize) -> Result<LevelParts, Seq<char>> {
    match blocks_of(file, level_name(index), taps) {
        Err(words) => Err(words),
        Ok(blocks) => match optional_of(file, level_name(index) + ".downsample.conv"@, taps) {
            Err(words) => Err(words),
            Ok(downsample) => Ok(LevelParts { blocks, downsample }),
        },
    }
}

fn level(file: &Vec<TensorInfo>, index: usize, taps: usize) -> (level: Result<Level, Error>)
    requires
        is_countable(file@),
        taps <= 3,
    ensures
        match level_of(file@, index as nat, taps) {
            Ok(parts) => level matches Ok(level) && level@ == parts,
            Err(words) => level matches Err(error) && error.says(words),
        },
{
    let name = checkpoint::numbered_name("encoder.down.", index, "");
    let blocks = blocks(file, name.as_str(), taps)?;
    let downsample = optional(file, checkpoint::joined(name.as_str(), ".downsample.conv").as_str(), taps)?;
    Ok(Level { blocks, downsample })
}

/// The levels by their numbers.
pub open spec fn level_row(file: Seq<TensorInfo>, taps: usize) -> spec_fn(int) -> Result<LevelParts, Seq<char>> {
    |index: int| level_of(file, index as nat, taps)
}

/// The levels of a file: those numbered from zero on whose first block is there.
pub open spec fn levels_of(file: Seq<TensorInfo>, taps: usize) -> Result<Seq<LevelParts>, Seq<char>> {
    checkpoint::all_of(
        level_row(file, taps),
        checkpoint::count_of(file, "encoder.down."@, ".block.0.conv1.weight"@) as int,
    )
}

/// What levels hold.
pub open spec fn parts(levels: Seq<Level>) -> Seq<LevelParts> {
    Seq::new(levels.len(), |i: int| levels[i]@)
}

fn levels(file: &Vec<TensorInfo>, taps: usize) -> (levels: Result<Vec<Level>, Error>)
    requires
        is_countable(file@),
        taps <= 3,
    ensures
        match levels_of(file@, taps) {
            Ok(expected) => levels matches Ok(levels) && parts(levels@) == expected,
            Err(words) => levels matches Err(error) && error.says(words),
        },
{
    let count: usize = checkpoint::count_numbered(file, "encoder.down.", ".block.0.conv1.weight");
    let ghost row = level_row(file@, taps);
    let mut levels: Vec<Level> = Vec::new();
    assert(parts(levels@) =~= Seq::empty());
    for index in 0..count
        invariant
            is_countable(file@),
            taps <= 3,
            row == level_row(file@, taps),
            checkpoint::all_of(row, index as int) == Ok::<Seq<LevelParts>, Seq<char>>(parts(levels@)),
            levels_of(file@, taps) == checkpoint::all_of(row, count as int),
    {
        match level(file, index, taps) {
            Ok(one) => {
                let ghost before = levels@;
                levels.push(one);
                assert(parts(levels@) =~= parts(before).push(one@));
            },
            Err(error) => {
                proof {
                    checkpoint::a_refusal_stays(row, index + 1, count as int);
                }
                return Err(error);
            },
        }
    }
    Ok(levels)
}

/// What an encoder holds.
pub ghost struct EncoderParts {
    pub levels: Seq<LevelParts>,
    pub input: Convolution,
    pub output: Convolution,
    pub quant: Convolution,
}

impl View for CudaVideoEncoder {
    type V = EncoderParts;

    open spec fn view(&self) -> EncoderParts {
        EncoderParts { levels: parts(self.levels@), input: self.input, output: self.output, quant: self.quant }
    }
}

/// The temporal taps that are kept.
pub open spec fn taps_of(temporal: Temporal) -> usize {
    match temporal {
        Temporal::Frame => 1,
        Temporal::Clip => 3,
    }
}

/// The encoder of a file, or why there is none, but for the check of what it comes to.
pub open spec fn parts_of(file: Seq<TensorInfo>, taps: usize) -> Result<EncoderParts, Seq<char>> {
    match levels_of(file, taps) {
        Err(words) => Err(words),
        Ok(levels) => match convolution_of(file, "encoder.conv_in"@, taps) {
            Err(words) => Err(words),
            Ok(input) => match norm_of(file, "encoder.norm_out"@) {
                Err(words) => Err(words),
                Ok(_) => match convolution_of(file, "encoder.conv_out"@, taps) {
                    Err(words) => Err(words),
                    Ok(output) => match convolution_of(file, "quant_conv"@, taps) {
                        Err(words) => Err(words),
                        Ok(quant) => if checkpoint::place_of(file, "latents_mean"@) is None {
                            Err(model::missing_tensor("latents_mean"@))
                        } else if checkpoint::place_of(file, "latents_std"@) is None {
                            Err(model::missing_tensor("latents_std"@))
                        } else {
                            Ok(EncoderParts { levels, input, output, quant })
                        },
                    },
                },
            },
        },
    }
}

/// Each convolution that a loaded encoder has is the one of its name in the file, and the normalization in front of it is
/// in the file too.
pub proof fn a_convolution_is_in_its_file(file: Seq<TensorInfo>, taps: usize, encoder: CudaVideoEncoder, which: Which)
    requires
        parts_of(file, taps) == Ok::<EncoderParts, Seq<char>>(encoder@),
        video_encoder::holds(encoder, which),
    ensures
        convolution_of(file, which.letters(), taps) == Ok::<Convolution, Seq<char>>(
            video_encoder::convolution_of(encoder, which),
        ),
        which.norm_letters() matches Some(norm) ==> norm_of(file, norm) is Ok,
{
    let levels = encoder@.levels;
    let count = checkpoint::count_of(file, "encoder.down."@, ".block.0.conv1.weight"@) as int;
    checkpoint::a_row_is_long(level_row(file, taps), count);
    match which {
        Which::First { level, block } | Which::Second { level, block } | Which::Shortcut { level, block } => {
            checkpoint::parts_are_numbered(level_row(file, taps), count, level as int);
            assert(levels[level as int] == encoder.levels@[level as int]@);
            let name = level_name(level as nat);
            let blocks = checkpoint::count_of(file, name + ".block."@, ".conv1.weight"@) as int;
            checkpoint::a_row_is_long(block_row(file, name, taps), blocks);
            checkpoint::parts_are_numbered(block_row(file, name, taps), blocks, block as int);
        },
        Which::Downsample { level } => {
            checkpoint::parts_are_numbered(level_row(file, taps), count, level as int);
            assert(levels[level as int] == encoder.levels@[level as int]@);
        },
        _ => {},
    }
}

/// The downsamplings among the first `count` levels.
pub open spec fn halvings(levels: Seq<LevelParts>, count: int) -> int
    decreases count,
{
    if count <= 0 {
        0
    } else {
        halvings(levels, count - 1) + (if levels[count - 1].downsample is Some {
            1int
        } else {
            0int
        })
    }
}

proof fn halvings_are_downsamples(levels: Seq<Level>, count: int)
    requires
        0 <= count <= levels.len(),
    ensures
        halvings(parts(levels), count) == crate::video_encoder::downsamples(levels, count),
    decreases count,
{
    if count > 0 {
        halvings_are_downsamples(levels, count - 1);
    }
}

/// Whether the parts and the latent statistics are those of the video VAE.
pub open spec fn is_supported(parts: EncoderParts, latents: int) -> bool {
    &&& halvings(parts.levels, parts.levels.len() as int) == 4
    &&& parts.quant.outputs == 48
    &&& latents == 24
}

impl CudaVideoEncoder {
    /// Loads the encoder of a file, keeping the temporal taps that `temporal` needs.
    pub fn load(
        file: &Vec<TensorInfo>,
        temporal: Temporal,
        tile_size: usize,
        tile_overlap_min: usize,
    ) -> (encoder: Result<CudaVideoEncoder, Error>)
        requires
            is_countable(file@),
        ensures
            match parts_of(file@, taps_of(temporal)) {
                Err(words) => encoder matches Err(error) && error.says(words),
                Ok(parts) => {
                    let mean = file@[checkpoint::place_of(file@, "latents_mean"@)->0];
                    if is_supported(parts, checkpoint::elements(mean.shape@)) {
                        encoder matches Ok(encoder) && encoder@ == parts && encoder.temporal == temporal
                            && encoder.tile_size == tile_size && encoder.tile_overlap_min == tile_overlap_min
                    } else {
                        encoder matches Err(error) && error.says("unsupported video encoder"@)
                    }
                },
            },
    {
        let taps: usize = temporal.taps();
        let levels = levels(file, taps)?;
        let input = convolution(file, "encoder.conv_in", taps)?;
        norm(file, "encoder.norm_out")?;
        let output = convolution(file, "encoder.conv_out", taps)?;
        let quant = convolution(file, "quant_conv", taps)?;
        let mean: usize = checkpoint::need(file, String::from_str("latents_mean"))?;
        checkpoint::need(file, String::from_str("latents_std"))?;
        let latents: usize = checkpoint::count_elements(&file[mean].shape);
        let encoder = CudaVideoEncoder { input, levels, output, quant, temporal, tile_size, tile_overlap_min };
        proof {
            halvings_are_downsamples(encoder.levels@, encoder.levels@.len() as int);
        }
        encoder.check(latents)?;
        Ok(encoder)
    }
}

} // verus!
