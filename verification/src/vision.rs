//! The Qwen3-VL vision tower on the GPU, which embeds the pictures of a prompt for the text
//! encoder.
//!
//! A picture's 16 × 16 patches go through 27 transformer blocks with full attention over the
//! picture and 2D rotary positions. A merger joins each 2 × 2 patches into one embedding of the
//! language model's width, and three more mergers turn the outputs of blocks 8, 16 and 24 into the
//! DeepStack features the language model adds to the picture's embeddings after its first three
//! layers.
use crate::arithmetic;
use crate::checkpoint;
use crate::checkpoint::TensorInfo;
use crate::model;
use crate::model::Error;
use crate::text;
use vstd::prelude::*;

verus! {

/// What the names of the vision tower start with.
pub const PREFIX: &'static str = "visual.";

pub const HEAD_DIM: usize = 72;

/// The place among the DeepStack features of a block's output, in the order the language model adds them.
pub open spec fn deepstack_of(block: int) -> Option<usize> {
    if block == 8 {
        Some(0)
    } else if block == 16 {
        Some(1)
    } else if block == 24 {
        Some(2)
    } else {
        None
    }
}

/// The DeepStack features.
pub const DEEPSTACK: usize = 3;

/// The last block whose output becomes a DeepStack feature.
pub const LAST_DEEPSTACK_BLOCK: usize = 24;

/// An FP32 linear layer `[outputs, inputs]` with a bias.
#[derive(Clone, Copy, Debug, PartialEq, Eq, Structural)]
pub struct FullLinear {
    pub inputs: usize,
    pub outputs: usize,
}

/// A block: the widths of its norms, and its layers.
#[derive(Clone, Copy, Debug, PartialEq, Eq, Structural)]
pub struct VisionBlock {
    pub norm1: usize,
    pub qkv: FullLinear,
    pub projection: FullLinear,
    pub norm2: usize,
    pub fc1: FullLinear,
    pub fc2: FullLinear,
}

/// A merger: a layer norm, then fc1, GELU and fc2 on each 2 × 2 patches, with the norm over the
/// joined patches (DeepStack) or over each patch before joining them (the main merger).
#[derive(Clone, Copy, Debug, PartialEq, Eq, Structural)]
pub struct Merger {
    pub norm: usize,
    pub fc1: FullLinear,
    pub fc2: FullLinear,
}

/// Where a tensor of the tower is in a file.
pub open spec fn at(file: Seq<TensorInfo>, name: Seq<char>) -> Option<int> {
    checkpoint::place_of(file, PREFIX@ + name)
}

pub open spec fn missing(name: Seq<char>) -> Seq<char> {
    model::missing_tensor(PREFIX@ + name)
}

/// Whether the tensors of a file can be counted, and the first side of a weight is not zero.
pub open spec fn is_countable(file: Seq<TensorInfo>) -> bool {
    forall|i: int|
        0 <= i < file.len() ==> checkpoint::elements((#[trigger] file[i]).shape@) <= usize::MAX && file[i].shape@.len()
            >= 1 && file[i].shape@[0] > 0
}

fn need(file: &Vec<TensorInfo>, name: &str, rest: &str) -> (place: Result<usize, Error>)
    ensures
        match at(file@, name@ + rest@) {
            Some(found) => place matches Ok(place) && place == found && place < file@.len(),
            None => place matches Err(error) && error.says(missing(name@ + rest@)),
        },
{
    let mut whole = String::from_str(PREFIX);
    whole.append(name);
    whole.append(rest);
    assert(whole@ =~= PREFIX@ + (name@ + rest@));
    checkpoint::need(file, whole)
}

/// A linear layer of a file, or the first of its tensors that is missing.
pub open spec fn linear_of(file: Seq<TensorInfo>, name: Seq<char>) -> Result<FullLinear, Seq<char>> {
    match at(file, name + ".weight"@) {
        None => Err(name + ".weight"@),
        Some(weight) => if at(file, name + ".bias"@) is None {
            Err(name + ".bias"@)
        } else {
            let outputs = file[weight].shape@[0];
            Ok(
                FullLinear {
                    inputs: (checkpoint::elements(file[weight].shape@) / outputs as int) as usize,
                    outputs,
                },
            )
        },
    }
}

/// Whether a part was found as expected, an error being that a tensor is missing.
pub open spec fn found<T>(part: Result<T, Error>, expected: Result<T, Seq<char>>) -> bool {
    match expected {
        Ok(expected) => part matches Ok(part) && part == expected,
        Err(name) => part matches Err(error) && error.says(missing(name)),
    }
}

fn linear(file: &Vec<TensorInfo>, name: &str) -> (linear: Result<FullLinear, Error>)
    requires
        is_countable(file@),
    ensures
        found(linear, linear_of(file@, name@)),
{
    let weight: usize = need(file, name, ".weight")?;
    need(file, name, ".bias")?;
    let outputs: usize = file[weight].shape[0];
    let elements: usize = checkpoint::count_elements(&file[weight].shape);
    Ok(FullLinear { inputs: elements / outputs, outputs })
}

/// The width of a layer norm of a file.
pub open spec fn norm_of(file: Seq<TensorInfo>, name: Seq<char>) -> Result<usize, Seq<char>> {
    match at(file, name + ".weight"@) {
        None => Err(name + ".weight"@),
        Some(weight) => if at(file, name + ".bias"@) is None {
            Err(name + ".bias"@)
        } else {
            Ok(checkpoint::elements(file[weight].shape@) as usize)
        },
    }
}

fn norm(file: &Vec<TensorInfo>, name: &str) -> (width: Result<usize, Error>)
    requires
        is_countable(file@),
    ensures
        found(width, norm_of(file@, name@)),
{
    let weight: usize = need(file, name, ".weight")?;
    need(file, name, ".bias")?;
    Ok(checkpoint::count_elements(&file[weight].shape))
}

/// The name of a part of a block.
pub open spec fn block_name(block: nat, rest: Seq<char>) -> Seq<char> {
    "blocks."@ + text::decimal(block) + rest
}

fn named(block: usize, rest: &str) -> (name: String)
    ensures
        name@ == block_name(block as nat, rest@),
{
    let mut name = String::from_str("blocks.");
    text::push_size(&mut name, block);
    name.append(rest);
    name
}

/// A block of a file.
pub open spec fn block_of(file: Seq<TensorInfo>, block: nat) -> Result<VisionBlock, Seq<char>> {
    match norm_of(file, block_name(block, ".norm1"@)) {
        Err(name) => Err(name),
        Ok(norm1) => match linear_of(file, block_name(block, ".attn.qkv"@)) {
            Err(name) => Err(name),
            Ok(qkv) => match linear_of(file, block_name(block, ".attn.proj"@)) {
                Err(name) => Err(name),
                Ok(projection) => match norm_of(file, block_name(block, ".norm2"@)) {
                    Err(name) => Err(name),
                    Ok(norm2) => match linear_of(file, block_name(block, ".mlp.linear_fc1"@)) {
                        Err(name) => Err(name),
                        Ok(fc1) => match linear_of(file, block_name(block, ".mlp.linear_fc2"@)) {
                            Err(name) => Err(name),
                            Ok(fc2) => Ok(VisionBlock { norm1, qkv, projection, norm2, fc1, fc2 }),
                        },
                    },
                },
            },
        },
    }
}

fn block(file: &Vec<TensorInfo>, index: usize) -> (block: Result<VisionBlock, Error>)
    requires
        is_countable(file@),
    ensures
        found(block, block_of(file@, index as nat)),
{
    let norm1: usize = norm(file, named(index, ".norm1").as_str())?;
    let qkv = linear(file, named(index, ".attn.qkv").as_str())?;
    let projection = linear(file, named(index, ".attn.proj").as_str())?;
    let norm2: usize = norm(file, named(index, ".norm2").as_str())?;
    let fc1 = linear(file, named(index, ".mlp.linear_fc1").as_str())?;
    let fc2 = linear(file, named(index, ".mlp.linear_fc2").as_str())?;
    Ok(VisionBlock { norm1, qkv, projection, norm2, fc1, fc2 })
}

/// A merger of a file.
pub open spec fn merger_of(file: Seq<TensorInfo>, name: Seq<char>) -> Result<Merger, Seq<char>> {
    match norm_of(file, name + ".norm"@) {
        Err(name) => Err(name),
        Ok(norm) => match linear_of(file, name + ".linear_fc1"@) {
            Err(name) => Err(name),
            Ok(fc1) => match linear_of(file, name + ".linear_fc2"@) {
                Err(name) => Err(name),
                Ok(fc2) => Ok(Merger { norm, fc1, fc2 }),
            },
        },
    }
}

fn merger(file: &Vec<TensorInfo>, name: &str) -> (merger: Result<Merger, Error>)
    requires
        is_countable(file@),
    ensures
        found(merger, merger_of(file@, name@)),
{
    let norm: usize = norm(file, checkpoint::joined(name, ".norm").as_str())?;
    let fc1 = linear(file, checkpoint::joined(name, ".linear_fc1").as_str())?;
    let fc2 = linear(file, checkpoint::joined(name, ".linear_fc2").as_str())?;
    Ok(Merger { norm, fc1, fc2 })
}

/// A vision tower whose weights are on the device.
pub struct CudaVisionEncoder {
    pub blocks: Vec<VisionBlock>,
    pub merger: Merger,
    pub deepstack: Vec<Merger>,
    pub hidden: usize,
    pub heads: usize,
}

/// Whether `encoder` is the tower of a file.
pub open spec fn is_tower(file: Seq<TensorInfo>, encoder: CudaVisionEncoder) -> bool {
    &&& at(file, "patch_embed.proj.weight"@) matches Some(patch)
    &&& encoder.hidden == file[patch].shape@[0]
    &&& encoder.heads == encoder.hidden / HEAD_DIM
    &&& checkpoint::holds_numbered(file, "visual.blocks."@, ".norm1.weight"@, encoder.blocks@.len())
    &&& forall|i: int|
        0 <= i < encoder.blocks@.len() ==> Ok::<VisionBlock, Seq<char>>(#[trigger] encoder.blocks@[i]) == block_of(
            file,
            i as nat,
        )
    &&& encoder.deepstack@.len() == DEEPSTACK
    &&& forall|i: int|
        0 <= i < DEEPSTACK ==> Ok::<Merger, Seq<char>>(#[trigger] encoder.deepstack@[i]) == merger_of(
            file,
            "deepstack_merger_list."@ + text::decimal(i as nat),
        )
    &&& Ok::<Merger, Seq<char>>(encoder.merger) == merger_of(file, "merger"@)
}

/// Whether a tower can run: its patches are of `patch_values` values and its rows fall into heads, it is deep enough for
/// its DeepStack features, and its file has the patch bias and the position table.
pub open spec fn can_run(file: Seq<TensorInfo>, patch_values: usize, encoder: CudaVisionEncoder) -> bool {
    &&& at(file, "patch_embed.proj.weight"@) matches Some(patch)
    &&& checkpoint::elements(file[patch].shape@) == encoder.hidden * patch_values
    &&& encoder.hidden % HEAD_DIM == 0
    &&& encoder.blocks@.len() > LAST_DEEPSTACK_BLOCK
    &&& at(file, "patch_embed.proj.bias"@) is Some
    &&& at(file, "pos_embed.weight"@) is Some
}

/// Whether a block is the first one of which a tensor is missing, with `name` the first.
pub open spec fn first_missing_block(file: Seq<TensorInfo>, block: nat, name: Seq<char>) -> bool {
    &&& block_of(file, block) == Err::<VisionBlock, Seq<char>>(name)
    &&& forall|before: nat| before < block ==> (#[trigger] block_of(file, before)) is Ok
}

/// Whether a DeepStack merger is the first one of which a tensor is missing, with `name` the first.
pub open spec fn first_missing_merger(file: Seq<TensorInfo>, index: nat, name: Seq<char>) -> bool {
    &&& index < DEEPSTACK
    &&& merger_of(file, "deepstack_merger_list."@ + text::decimal(index)) == Err::<Merger, Seq<char>>(name)
    &&& forall|before: nat|
        before < index ==> (#[trigger] merger_of(file, "deepstack_merger_list."@ + text::decimal(before))) is Ok
}

/// Why a tower of `blocks` blocks cannot be loaded, if it cannot: the first of its tensors that is missing, or that
/// it is too short.
pub open spec fn tower_refused(file: Seq<TensorInfo>, patch_values: usize, blocks: nat, words: Seq<char>) -> bool {
    match at(file, "patch_embed.proj.weight"@) {
        None => words == missing("patch_embed.proj.weight"@),
        Some(patch) => {
            let shape = file[patch].shape@;
            if checkpoint::elements(shape) != shape[0] * patch_values || shape[0] % HEAD_DIM != 0 {
                words == "unsupported vision patch embedding "@ + text::listed(shape)
            } else if exists|block: nat| block < blocks && (#[trigger] block_of(file, block)) is Err {
                exists|block: nat, name: Seq<char>|
                    block < blocks && #[trigger] first_missing_block(file, block, name) && words == missing(name)
            } else if exists|index: nat|
                index < DEEPSTACK && (#[trigger] merger_of(
                    file,
                    "deepstack_merger_list."@ + text::decimal(index),
                )) is Err {
                exists|index: nat, name: Seq<char>|
                    #[trigger] first_missing_merger(file, index, name) && words == missing(name)
            } else if blocks <= LAST_DEEPSTACK_BLOCK {
                words == "a vision tower of "@ + text::decimal(blocks) + " blocks has no DeepStack features"@
            } else if at(file, "patch_embed.proj.bias"@) is None {
                words == missing("patch_embed.proj.bias"@)
            } else if at(file, "pos_embed.weight"@) is None {
                words == missing("pos_embed.weight"@)
            } else {
                merger_of(file, "merger"@) matches Err(name) && words == missing(name)
            }
        },
    }
}

fn load_blocks(file: &Vec<TensorInfo>, count: usize) -> (blocks: Result<Vec<VisionBlock>, Error>)
    requires
        is_countable(file@),
    ensures
        match blocks {
            Ok(blocks) => {
                &&& blocks@.len() == count
                &&& forall|block: nat| block < count ==> (#[trigger] block_of(file@, block)) is Ok
                &&& forall|i: int|
                    0 <= i < count ==> Ok::<VisionBlock, Seq<char>>(#[trigger] blocks@[i]) == block_of(
                        file@,
                        i as nat,
                    )
            },
            Err(error) => exists|block: nat, name: Seq<char>|
                block < count && #[trigger] first_missing_block(file@, block, name) && error.says(missing(name)),
        },
{
    let mut blocks: Vec<VisionBlock> = Vec::new();
    for index in 0..count
        invariant
            is_countable(file@),
            blocks@.len() == index,
            forall|block: nat| block < index ==> (#[trigger] block_of(file@, block)) is Ok,
            forall|i: int|
                0 <= i < index ==> Ok::<VisionBlock, Seq<char>>(#[trigger] blocks@[i]) == block_of(file@, i as nat),
    {
        match block(file, index) {
            Ok(one) => {
                blocks.push(one);
            },
            Err(error) => {
                proof {
                    let name = block_of(file@, index as nat)->Err_0;
                    assert(first_missing_block(file@, index as nat, name));
                }
                return Err(error);
            },
        }
    }
    Ok(blocks)
}

fn load_deepstack(file: &Vec<TensorInfo>) -> (mergers: Result<Vec<Merger>, Error>)
    requires
        is_countable(file@),
    ensures
        match mergers {
            Ok(mergers) => {
                &&& mergers@.len() == DEEPSTACK
                &&& forall|index: nat|
                    index < DEEPSTACK ==> (#[trigger] merger_of(
                        file@,
                        "deepstack_merger_list."@ + text::decimal(index),
                    )) is Ok
                &&& forall|i: int|
                    0 <= i < DEEPSTACK ==> Ok::<Merger, Seq<char>>(#[trigger] mergers@[i]) == merger_of(
                        file@,
                        "deepstack_merger_list."@ + text::decimal(i as nat),
                    )
            },
            Err(error) => exists|index: nat, name: Seq<char>|
                #[trigger] first_missing_merger(file@, index, name) && error.says(missing(name)),
        },
{
    let mut mergers: Vec<Merger> = Vec::new();
    for index in 0..DEEPSTACK
        invariant
            is_countable(file@),
            mergers@.len() == index,
            forall|before: nat|
                before < index ==> (#[trigger] merger_of(
                    file@,
                    "deepstack_merger_list."@ + text::decimal(before),
                )) is Ok,
            forall|i: int|
                0 <= i < index ==> Ok::<Merger, Seq<char>>(#[trigger] mergers@[i]) == merger_of(
                    file@,
                    "deepstack_merger_list."@ + text::decimal(i as nat),
                ),
    {
        let mut name = String::from_str("deepstack_merger_list.");
        text::push_size(&mut name, index);
        match merger(file, name.as_str()) {
            Ok(one) => {
                mergers.push(one);
            },
            Err(error) => {
                proof {
                    let missing_name = merger_of(file@, name@)->Err_0;
                    assert(first_missing_merger(file@, index as nat, missing_name));
                }
                return Err(error);
            },
        }
    }
    Ok(mergers)
}

impl CudaVisionEncoder {
    /// Loads the vision tower of a Qwen3-VL text encoder checkpoint, with patches of `patch_values` values.
    pub fn load(file: &Vec<TensorInfo>, patch_values: usize) -> (encoder: Result<CudaVisionEncoder, Error>)
        requires
            is_countable(file@),
            at(file@, "patch_embed.proj.weight"@) matches Some(patch) ==> file@[patch].shape@[0] * patch_values
                <= usize::MAX,
        ensures
            match encoder {
                Ok(encoder) => {
                    &&& is_tower(file@, encoder)
                    &&& can_run(file@, patch_values, encoder)
                    &&& forall|words: Seq<char>|
                        !(#[trigger] tower_refused(file@, patch_values, encoder.blocks@.len(), words))
                },
                Err(error) => exists|blocks: nat, words: Seq<char>|
                    checkpoint::holds_numbered(file@, "visual.blocks."@, ".norm1.weight"@, blocks)
                        && #[trigger] tower_refused(file@, patch_values, blocks, words) && error.says(words),
            },
    {
        let count: usize = checkpoint::count_numbered(file, "visual.blocks.", ".norm1.weight");
        let ghost blocks_held = count as nat;
        let patch: usize = match need(file, "patch_embed.proj", ".weight") {
            Ok(patch) => patch,
            Err(error) => {
                proof {
                    named_whole();
                    assert(tower_refused(file@, patch_values, blocks_held, missing("patch_embed.proj.weight"@)));
                }
                return Err(error);
            },
        };
        proof {
            named_whole();
        }
        let hidden: usize = file[patch].shape[0];
        let elements: usize = checkpoint::count_elements(&file[patch].shape);
        if elements != hidden * patch_values || hidden % HEAD_DIM != 0 {
            let mut message = String::from_str("unsupported vision patch embedding ");
            text::push_list(&mut message, &file[patch].shape);
            assert(tower_refused(file@, patch_values, blocks_held, message@));
            return Err(Error::Model(message));
        }
        let blocks = match load_blocks(file, count) {
            Ok(blocks) => blocks,
            Err(error) => {
                proof {
                    let (block, name) = choose|block: nat, name: Seq<char>|
                        block < count && #[trigger] first_missing_block(file@, block, name) && error.says(
                            missing(name),
                        );
                    assert(block_of(file@, block) is Err);
                    assert(tower_refused(file@, patch_values, blocks_held, missing(name)));
                }
                return Err(error);
            },
        };
        let deepstack = match load_deepstack(file) {
            Ok(deepstack) => deepstack,
            Err(error) => {
                proof {
                    let (index, name) = choose|index: nat, name: Seq<char>|
                        #[trigger] first_missing_merger(file@, index, name) && error.says(missing(name));
                    assert(merger_of(file@, "deepstack_merger_list."@ + text::decimal(index)) is Err);
                    assert(tower_refused(file@, patch_values, blocks_held, missing(name)));
                }
                return Err(error);
            },
        };
        if count <= LAST_DEEPSTACK_BLOCK {
            let mut message = String::from_str("a vision tower of ");
            text::push_size(&mut message, count);
            message.append(" blocks has no DeepStack features");
            assert(tower_refused(file@, patch_values, blocks_held, message@));
            return Err(Error::Model(message));
        }
        match need(file, "patch_embed.proj", ".bias") {
            Ok(_) => {},
            Err(error) => {
                assert(tower_refused(file@, patch_values, blocks_held, missing("patch_embed.proj.bias"@)));
                return Err(error);
            },
        }
        match need(file, "pos_embed", ".weight") {
            Ok(_) => {},
            Err(error) => {
                assert(tower_refused(file@, patch_values, blocks_held, missing("pos_embed.weight"@)));
                return Err(error);
            },
        }
        let merger = match merger(file, "merger") {
            Ok(merger) => merger,
            Err(error) => {
                proof {
                    let name = merger_of(file@, "merger"@)->Err_0;
                    assert(tower_refused(file@, patch_values, blocks_held, missing(name)));
                }
                return Err(error);
            },
        };
        Ok(CudaVisionEncoder { blocks, merger, deepstack, hidden, heads: hidden / HEAD_DIM })
    }

    /// The width of the embeddings, the language model's hidden size.
    pub fn output_width(&self) -> (width: usize)
        ensures
            width == self.merger.fc2.outputs,
    {
        self.merger.fc2.outputs
    }
}

/// The names that stand whole and in two pieces are the same.
proof fn named_whole()
    ensures
        "patch_embed.proj"@ + ".weight"@ == "patch_embed.proj.weight"@,
        "patch_embed.proj"@ + ".bias"@ == "patch_embed.proj.bias"@,
        "pos_embed"@ + ".weight"@ == "pos_embed.weight"@,
{
    reveal_strlit("patch_embed.proj");
    reveal_strlit(".weight");
    reveal_strlit(".bias");
    reveal_strlit("patch_embed.proj.weight");
    reveal_strlit("patch_embed.proj.bias");
    reveal_strlit("pos_embed");
    reveal_strlit("pos_embed.weight");
    assert("patch_embed.proj"@ + ".weight"@ =~= "patch_embed.proj.weight"@);
    assert("patch_embed.proj"@ + ".bias"@ =~= "patch_embed.proj.bias"@);
    assert("pos_embed"@ + ".weight"@ =~= "pos_embed.weight"@);
}

/// The layer norms of the tower.
#[derive(Clone, Copy, Debug, PartialEq, Eq, Structural)]
pub enum VisionNorm {
    First(usize),
    Second(usize),
    /// Of a DeepStack merger, over joined patches.
    Deep(usize),
    /// Of the main merger, over each patch before joining them.
    Main,
}

/// The name of a part of a DeepStack merger.
pub open spec fn deep_letters(index: usize, rest: Seq<char>) -> Seq<char> {
    "deepstack_merger_list."@ + text::decimal(index as nat) + rest
}

fn deep_name(index: usize, rest: &str) -> (name: String)
    ensures
        name@ == deep_letters(index, rest@),
{
    checkpoint::numbered_name("deepstack_merger_list.", index, rest)
}

impl VisionNorm {
    pub open spec fn letters(self) -> Seq<char> {
        match self {
            VisionNorm::First(block) => block_name(block as nat, ".norm1"@),
            VisionNorm::Second(block) => block_name(block as nat, ".norm2"@),
            VisionNorm::Deep(index) => deep_letters(index, ".norm"@),
            VisionNorm::Main => "merger.norm"@,
        }
    }

    /// The name of the normalization, without the prefix of the tower.
    pub fn name(self) -> (name: String)
        ensures
            name@ == self.letters(),
    {
        match self {
            VisionNorm::First(block) => named(block, ".norm1"),
            VisionNorm::Second(block) => named(block, ".norm2"),
            VisionNorm::Deep(index) => deep_name(index, ".norm"),
            VisionNorm::Main => String::from_str("merger.norm"),
        }
    }
}

/// The linear layers of the tower.
#[derive(Clone, Copy, Debug, PartialEq, Eq, Structural)]
pub enum VisionLinear {
    Qkv(usize),
    Projection(usize),
    Fc1(usize),
    Fc2(usize),
    DeepFc1(usize),
    DeepFc2(usize),
    MainFc1,
    MainFc2,
}

impl VisionLinear {
    pub open spec fn letters(self) -> Seq<char> {
        match self {
            VisionLinear::Qkv(block) => block_name(block as nat, ".attn.qkv"@),
            VisionLinear::Projection(block) => block_name(block as nat, ".attn.proj"@),
            VisionLinear::Fc1(block) => block_name(block as nat, ".mlp.linear_fc1"@),
            VisionLinear::Fc2(block) => block_name(block as nat, ".mlp.linear_fc2"@),
            VisionLinear::DeepFc1(index) => deep_letters(index, ".linear_fc1"@),
            VisionLinear::DeepFc2(index) => deep_letters(index, ".linear_fc2"@),
            VisionLinear::MainFc1 => "merger.linear_fc1"@,
            VisionLinear::MainFc2 => "merger.linear_fc2"@,
        }
    }

    /// The name of the layer, without the prefix of the tower.
    pub fn name(self) -> (name: String)
        ensures
            name@ == self.letters(),
    {
        match self {
            VisionLinear::Qkv(block) => named(block, ".attn.qkv"),
            VisionLinear::Projection(block) => named(block, ".attn.proj"),
            VisionLinear::Fc1(block) => named(block, ".mlp.linear_fc1"),
            VisionLinear::Fc2(block) => named(block, ".mlp.linear_fc2"),
            VisionLinear::DeepFc1(index) => deep_name(index, ".linear_fc1"),
            VisionLinear::DeepFc2(index) => deep_name(index, ".linear_fc2"),
            VisionLinear::MainFc1 => String::from_str("merger.linear_fc1"),
            VisionLinear::MainFc2 => String::from_str("merger.linear_fc2"),
        }
    }
}

/// A merger of the tower.
#[derive(Clone, Copy, Debug, PartialEq, Eq, Structural)]
pub enum Merging {
    Deep(usize),
    Main,
}

/// A buffer of one picture.
#[derive(Clone, Copy, Debug, PartialEq, Eq, Structural)]
pub enum VisionBuffer {
    States,
    Normalized,
    Qkv,
    Query,
    Key,
    Values,
    Scores,
    /// The values of the heads, weighted by their scores.
    Weighted,
    Attention,
    Expanded,
    /// What the first layer of a merger makes of the joined patches.
    Joined(Merging),
    Merged(Merging),
}

impl VisionLinear {
    pub open spec fn reads(self) -> VisionBuffer {
        match self {
            VisionLinear::Qkv(_) | VisionLinear::Fc1(_) | VisionLinear::DeepFc1(_) | VisionLinear::MainFc1 => {
                VisionBuffer::Normalized
            },
            VisionLinear::Projection(_) => VisionBuffer::Attention,
            VisionLinear::Fc2(_) => VisionBuffer::Expanded,
            VisionLinear::DeepFc2(index) => VisionBuffer::Joined(Merging::Deep(index)),
            VisionLinear::MainFc2 => VisionBuffer::Joined(Merging::Main),
        }
    }

    /// The buffer of the layer's input.
    pub fn input(self) -> (buffer: VisionBuffer)
        ensures
            buffer == self.reads(),
    {
        match self {
            VisionLinear::Qkv(_) | VisionLinear::Fc1(_) | VisionLinear::DeepFc1(_) | VisionLinear::MainFc1 => {
                VisionBuffer::Normalized
            },
            VisionLinear::Projection(_) => VisionBuffer::Attention,
            VisionLinear::Fc2(_) => VisionBuffer::Expanded,
            VisionLinear::DeepFc2(index) => VisionBuffer::Joined(Merging::Deep(index)),
            VisionLinear::MainFc2 => VisionBuffer::Joined(Merging::Main),
        }
    }

    pub open spec fn writes(self) -> VisionBuffer {
        match self {
            VisionLinear::Qkv(_) => VisionBuffer::Qkv,
            VisionLinear::Projection(_) | VisionLinear::Fc2(_) => VisionBuffer::States,
            VisionLinear::Fc1(_) => VisionBuffer::Expanded,
            VisionLinear::DeepFc1(index) => VisionBuffer::Joined(Merging::Deep(index)),
            VisionLinear::DeepFc2(index) => VisionBuffer::Merged(Merging::Deep(index)),
            VisionLinear::MainFc1 => VisionBuffer::Joined(Merging::Main),
            VisionLinear::MainFc2 => VisionBuffer::Merged(Merging::Main),
        }
    }

    /// The buffer of the layer's output.
    pub fn output(self) -> (buffer: VisionBuffer)
        ensures
            buffer == self.writes(),
    {
        match self {
            VisionLinear::Qkv(_) => VisionBuffer::Qkv,
            VisionLinear::Projection(_) | VisionLinear::Fc2(_) => VisionBuffer::States,
            VisionLinear::Fc1(_) => VisionBuffer::Expanded,
            VisionLinear::DeepFc1(index) => VisionBuffer::Joined(Merging::Deep(index)),
            VisionLinear::DeepFc2(index) => VisionBuffer::Merged(Merging::Deep(index)),
            VisionLinear::MainFc1 => VisionBuffer::Joined(Merging::Main),
            VisionLinear::MainFc2 => VisionBuffer::Merged(Merging::Main),
        }
    }
}

/// One launch of the tower.
#[derive(Clone, Copy, Debug, PartialEq, Eq, Structural)]
pub enum VisionStep {
    PatchEmbed { rows: usize, outputs: usize },
    /// Adds the position embeddings to the states.
    AddPositions { count: usize },
    Norm { norm: VisionNorm, rows: usize, width: usize },
    /// A linear layer, added to its output where `accumulate` says so.
    Linear { linear: VisionLinear, rows: usize, inputs: usize, outputs: usize, accumulate: bool },
    Gelu { buffer: VisionBuffer, count: usize, tanh: bool },
    /// Splits q, k and v into heads and rotates them.
    SplitRotate { rows: usize, heads: usize },
    /// The scores of the head at this byte of q and k.
    Scores { offset: usize, rows: usize },
    Softmax { rows: usize },
    /// The values of the head at this byte, weighted by the scores.
    Weighted { offset: usize, rows: usize },
    MergeHeads { rows: usize, heads: usize },
}

/// The attention of the first `count` heads, one by one.
pub open spec fn heads_steps(rows: usize, count: int) -> Seq<VisionStep>
    decreases count,
{
    if count <= 0 {
        Seq::empty()
    } else {
        let offset = ((count - 1) * (rows * HEAD_DIM) * 4) as usize;
        heads_steps(rows, count - 1) + seq![
            VisionStep::Scores { offset, rows },
            VisionStep::Softmax { rows },
            VisionStep::Weighted { offset, rows },
        ]
    }
}

/// Full attention over the patches of one picture, head by head.
pub open spec fn attend_steps(rows: usize, heads: usize) -> Seq<VisionStep> {
    seq![VisionStep::SplitRotate { rows, heads }] + heads_steps(rows, heads as int) + seq![
        VisionStep::MergeHeads { rows, heads },
    ]
}

fn attend(rows: usize, heads: usize, steps: &mut Vec<VisionStep>)
    requires
        heads * (rows * HEAD_DIM) * 4 <= usize::MAX,
        rows * HEAD_DIM <= usize::MAX,
    ensures
        final(steps)@ == old(steps)@ + attend_steps(rows, heads),
{
    let ghost before = steps@;
    steps.push(VisionStep::SplitRotate { rows, heads });
    let ghost split = steps@;
    let values: usize = rows * HEAD_DIM;
    for head in 0..heads
        invariant
            values == rows * HEAD_DIM,
            heads * values * 4 <= usize::MAX,
            steps@ =~= split + heads_steps(rows, head as int),
    {
        proof {
            arithmetic::products_grow(head as int, values as int, heads as int, values as int);
        }
        let offset: usize = head * values * 4;
        steps.push(VisionStep::Scores { offset, rows });
        steps.push(VisionStep::Softmax { rows });
        steps.push(VisionStep::Weighted { offset, rows });
    }
    steps.push(VisionStep::MergeHeads { rows, heads });
    assert(steps@ =~= before + attend_steps(rows, heads));
}

/// fc2(GELU(fc1(rows))) over rows of 2 × 2 joined patches.
pub open spec fn merge_steps(merger: Merger, first: VisionLinear, second: VisionLinear, rows: usize) -> Seq<VisionStep> {
    seq![
        VisionStep::Linear {
            linear: first,
            rows,
            inputs: merger.fc1.inputs,
            outputs: merger.fc1.outputs,
            accumulate: false,
        },
        VisionStep::Gelu { buffer: first.writes(), count: (rows * merger.fc1.outputs) as usize, tanh: false },
        VisionStep::Linear {
            linear: second,
            rows,
            inputs: merger.fc2.inputs,
            outputs: merger.fc2.outputs,
            accumulate: false,
        },
    ]
}

fn merge(merger: &Merger, first: VisionLinear, second: VisionLinear, rows: usize, steps: &mut Vec<VisionStep>)
    requires
        rows * merger.fc1.outputs <= usize::MAX,
    ensures
        final(steps)@ == old(steps)@ + merge_steps(*merger, first, second, rows),
{
    let ghost before = steps@;
    steps.push(
        VisionStep::Linear {
            linear: first,
            rows,
            inputs: merger.fc1.inputs,
            outputs: merger.fc1.outputs,
            accumulate: false,
        },
    );
    steps.push(VisionStep::Gelu { buffer: first.output(), count: rows * merger.fc1.outputs, tanh: false });
    steps.push(
        VisionStep::Linear {
            linear: second,
            rows,
            inputs: merger.fc2.inputs,
            outputs: merger.fc2.outputs,
            accumulate: false,
        },
    );
    assert(steps@ =~= before + merge_steps(*merger, first, second, rows));
}

/// The norm and the layers of a block.
pub open spec fn block_steps(block: VisionBlock, index: usize, ffn: usize, rows: usize, heads: usize) -> Seq<VisionStep> {
    seq![
        VisionStep::Norm { norm: VisionNorm::First(index), rows, width: block.norm1 },
        VisionStep::Linear {
            linear: VisionLinear::Qkv(index),
            rows,
            inputs: block.qkv.inputs,
            outputs: block.qkv.outputs,
            accumulate: false,
        },
    ] + attend_steps(rows, heads) + seq![
        VisionStep::Linear {
            linear: VisionLinear::Projection(index),
            rows,
            inputs: block.projection.inputs,
            outputs: block.projection.outputs,
            accumulate: true,
        },
        VisionStep::Norm { norm: VisionNorm::Second(index), rows, width: block.norm2 },
        VisionStep::Linear {
            linear: VisionLinear::Fc1(index),
            rows,
            inputs: block.fc1.inputs,
            outputs: block.fc1.outputs,
            accumulate: false,
        },
        VisionStep::Gelu { buffer: VisionBuffer::Expanded, count: (rows * ffn) as usize, tanh: true },
        VisionStep::Linear {
            linear: VisionLinear::Fc2(index),
            rows,
            inputs: block.fc2.inputs,
            outputs: block.fc2.outputs,
            accumulate: true,
        },
    ]
}

/// A DeepStack feature of a block's output, where it becomes one.
pub open spec fn deep_steps(deepstack: Seq<Merger>, block: int, merged_rows: usize) -> Seq<VisionStep> {
    match deepstack_of(block) {
        None => Seq::empty(),
        Some(place) => seq![
            VisionStep::Norm {
                norm: VisionNorm::Deep(place),
                rows: merged_rows,
                width: deepstack[place as int].norm,
            },
        ] + merge_steps(
            deepstack[place as int],
            VisionLinear::DeepFc1(place),
            VisionLinear::DeepFc2(place),
            merged_rows,
        ),
    }
}

/// The first `count` blocks.
pub open spec fn blocks_steps(encoder: CudaVisionEncoder, rows: usize, merged_rows: usize, count: int) -> Seq<VisionStep>
    decreases count,
{
    if count <= 0 {
        Seq::empty()
    } else {
        blocks_steps(encoder, rows, merged_rows, count - 1) + block_steps(
            encoder.blocks@[count - 1],
            (count - 1) as usize,
            encoder.blocks@[0].fc1.outputs,
            rows,
            encoder.heads,
        ) + deep_steps(encoder.deepstack@, count - 1, merged_rows)
    }
}

/// The launches that embed a picture of `rows` patches.
pub open spec fn encode_steps(encoder: CudaVisionEncoder, rows: usize, merged_rows: usize) -> Seq<VisionStep> {
    seq![
        VisionStep::PatchEmbed { rows, outputs: encoder.hidden },
        VisionStep::AddPositions { count: (rows * encoder.hidden) as usize },
    ] + blocks_steps(encoder, rows, merged_rows, encoder.blocks@.len() as int) + seq![
        VisionStep::Norm { norm: VisionNorm::Main, rows, width: encoder.merger.norm },
    ] + merge_steps(encoder.merger, VisionLinear::MainFc1, VisionLinear::MainFc2, merged_rows)
}

/// Whether the outputs of a merger's layers can be counted.
pub open spec fn merger_counts(merger: Merger, merged_rows: usize) -> bool {
    &&& merged_rows * merger.fc1.outputs * 4 <= usize::MAX
    &&& merged_rows * merger.fc2.outputs * 4 <= usize::MAX
}

/// Whether the layers of a block read and write no more than the buffers of a picture hold.
pub open spec fn block_is_matched(block: VisionBlock, rows: usize, hidden: usize, ffn: usize) -> bool {
    &&& rows * block.norm1 <= rows * hidden
    &&& rows * block.qkv.inputs <= rows * hidden
    &&& rows * block.qkv.outputs <= rows * (3 * hidden)
    &&& rows * block.projection.inputs <= rows * hidden
    &&& rows * block.projection.outputs <= rows * hidden
    &&& rows * block.norm2 <= rows * hidden
    &&& rows * block.fc1.inputs <= rows * hidden
    &&& rows * block.fc1.outputs <= rows * ffn
    &&& rows * block.fc2.inputs <= rows * ffn
    &&& rows * block.fc2.outputs <= rows * hidden
}

/// Whether the norm of a merger over `norm_rows` rows and its layers read and write no more than the buffers hold.
pub open spec fn merger_is_matched(merger: Merger, norm_rows: usize, merged_rows: usize, values: int) -> bool {
    &&& norm_rows * merger.norm <= values
    &&& merged_rows * merger.fc1.inputs <= values
    &&& merged_rows * merger.fc2.inputs <= merged_rows * merger.fc1.outputs
}

/// Whether rows of this width are no more than `values`.
fn fits(rows: usize, width: usize, values: usize) -> (fits: bool)
    ensures
        fits == (rows * width <= values),
{
    match rows.checked_mul(width) {
        Some(count) => count <= values,
        None => false,
    }
}

fn fits_block(block: &VisionBlock, rows: usize, hidden: usize, ffn: usize) -> (matched: bool)
    requires
        rows * (3 * hidden) <= usize::MAX,
        3 * hidden <= usize::MAX,
        rows * ffn <= usize::MAX,
    ensures
        matched == block_is_matched(*block, rows, hidden, ffn),
{
    proof {
        arithmetic::products_grow(rows as int, hidden as int, rows as int, 3 * hidden);
    }
    let (values, expanded): (usize, usize) = (rows * hidden, rows * ffn);
    fits(rows, block.norm1, values) && fits(rows, block.qkv.inputs, values) && fits(
        rows,
        block.qkv.outputs,
        rows * (3 * hidden),
    ) && fits(rows, block.projection.inputs, values) && fits(rows, block.projection.outputs, values) && fits(
        rows,
        block.norm2,
        values,
    ) && fits(rows, block.fc1.inputs, values) && fits(rows, block.fc1.outputs, expanded) && fits(
        rows,
        block.fc2.inputs,
        expanded,
    ) && fits(rows, block.fc2.outputs, values)
}

fn fits_merger(merger: &Merger, norm_rows: usize, merged_rows: usize, values: usize) -> (matched: bool)
    requires
        merger_counts(*merger, merged_rows),
    ensures
        matched == merger_is_matched(*merger, norm_rows, merged_rows, values as int),
{
    fits(norm_rows, merger.norm, values) && fits(merged_rows, merger.fc1.inputs, values) && fits(
        merged_rows,
        merger.fc2.inputs,
        merged_rows * merger.fc1.outputs,
    )
}

impl CudaVisionEncoder {
    /// Whether the sizes of a picture can be counted.
    pub open spec fn counts(self, rows: usize, merged_rows: usize) -> bool {
        &&& self.blocks@.len() > 0
        &&& self.deepstack@.len() == DEEPSTACK
        &&& 3 * self.hidden <= usize::MAX
        &&& rows * (3 * self.hidden) * 4 <= usize::MAX
        &&& rows * rows * 4 <= usize::MAX
        &&& rows * HEAD_DIM <= usize::MAX
        &&& self.heads * (rows * HEAD_DIM) * 4 <= usize::MAX
        &&& rows * self.blocks@[0].fc1.outputs * 4 <= usize::MAX
        &&& merger_counts(self.merger, merged_rows)
        &&& forall|i: int| 0 <= i < DEEPSTACK ==> merger_counts(#[trigger] self.deepstack@[i], merged_rows)
    }

    /// Whether every layer reads and writes no more than the buffers of a picture hold.
    pub open spec fn is_matched(self, rows: usize, merged_rows: usize) -> bool {
        &&& self.hidden == self.heads * HEAD_DIM
        &&& forall|i: int|
            0 <= i < self.blocks@.len() ==> block_is_matched(
                #[trigger] self.blocks@[i],
                rows,
                self.hidden,
                self.blocks@[0].fc1.outputs,
            )
        &&& forall|i: int|
            0 <= i < DEEPSTACK ==> merger_is_matched(
                #[trigger] self.deepstack@[i],
                merged_rows,
                merged_rows,
                rows * self.hidden,
            )
        &&& merger_is_matched(self.merger, rows, merged_rows, rows * self.hidden)
    }

    /// Whether every layer reads and writes no more than the buffers of a picture of `rows` patches hold.
    pub fn fits(&self, rows: usize, merged_rows: usize) -> (matched: bool)
        requires
            self.counts(rows, merged_rows),
        ensures
            matched == self.is_matched(rows, merged_rows),
    {
        proof {
            arithmetic::products_grow(rows as int, self.hidden as int, rows as int, 3 * self.hidden);
        }
        let values: usize = rows * self.hidden;
        let ffn: usize = self.blocks[0].fc1.outputs;
        if self.hidden % HEAD_DIM != 0 || self.hidden / HEAD_DIM != self.heads {
            return false;
        }
        let count: usize = self.blocks.len();
        for index in 0..count
            invariant
                count == self.blocks@.len(),
                self.counts(rows, merged_rows),
                ffn == self.blocks@[0].fc1.outputs,
                forall|i: int|
                    0 <= i < index ==> block_is_matched(#[trigger] self.blocks@[i], rows, self.hidden, ffn),
        {
            if !fits_block(&self.blocks[index], rows, self.hidden, ffn) {
                return false;
            }
        }
        for index in 0..DEEPSTACK
            invariant
                self.counts(rows, merged_rows),
                values == rows * self.hidden,
                forall|i: int|
                    0 <= i < index ==> merger_is_matched(
                        #[trigger] self.deepstack@[i],
                        merged_rows,
                        merged_rows,
                        values as int,
                    ),
        {
            if !fits_merger(&self.deepstack[index], merged_rows, merged_rows, values) {
                return false;
            }
        }
        fits_merger(&self.merger, rows, merged_rows, values)
    }

    /// A merger of the tower.
    pub open spec fn merging(self, merging: Merging) -> Merger {
        match merging {
            Merging::Deep(index) => self.deepstack@[index as int],
            Merging::Main => self.merger,
        }
    }

    /// Values that a buffer of a picture holds.
    pub open spec fn capacity(self, rows: usize, merged_rows: usize, buffer: VisionBuffer) -> int {
        match buffer {
            VisionBuffer::Qkv => rows * (3 * self.hidden),
            VisionBuffer::Scores => rows * rows,
            VisionBuffer::Expanded => rows * self.blocks@[0].fc1.outputs,
            VisionBuffer::Joined(merging) => merged_rows * self.merging(merging).fc1.outputs,
            VisionBuffer::Merged(merging) => merged_rows * self.merging(merging).fc2.outputs,
            _ => rows * self.hidden,
        }
    }

    /// Bytes of a buffer of a picture.
    pub fn bytes(&self, rows: usize, merged_rows: usize, buffer: VisionBuffer) -> (bytes: usize)
        requires
            self.counts(rows, merged_rows),
            buffer matches VisionBuffer::Joined(Merging::Deep(index)) ==> index < DEEPSTACK,
            buffer matches VisionBuffer::Merged(Merging::Deep(index)) ==> index < DEEPSTACK,
        ensures
            bytes == self.capacity(rows, merged_rows, buffer) * 4,
    {
        proof {
            arithmetic::products_grow(rows as int, self.hidden as int, rows as int, 3 * self.hidden);
        }
        match buffer {
            VisionBuffer::Qkv => rows * (3 * self.hidden) * 4,
            VisionBuffer::Scores => rows * rows * 4,
            VisionBuffer::Expanded => rows * self.blocks[0].fc1.outputs * 4,
            VisionBuffer::Joined(Merging::Deep(index)) => {
                assert(merger_counts(self.deepstack@[index as int], merged_rows));
                merged_rows * self.deepstack[index].fc1.outputs * 4
            },
            VisionBuffer::Joined(Merging::Main) => merged_rows * self.merger.fc1.outputs * 4,
            VisionBuffer::Merged(Merging::Deep(index)) => {
                assert(merger_counts(self.deepstack@[index as int], merged_rows));
                merged_rows * self.deepstack[index].fc2.outputs * 4
            },
            VisionBuffer::Merged(Merging::Main) => merged_rows * self.merger.fc2.outputs * 4,
            _ => rows * self.hidden * 4,
        }
    }

    fn run_block(&self, index: usize, rows: usize, merged_rows: usize, steps: &mut Vec<VisionStep>)
        requires
            self.counts(rows, merged_rows),
            index < self.blocks@.len(),
        ensures
            final(steps)@ == old(steps)@ + block_steps(
                self.blocks@[index as int],
                index,
                self.blocks@[0].fc1.outputs,
                rows,
                self.heads,
            ) + deep_steps(self.deepstack@, index as int, merged_rows),
    {
        let ghost before = steps@;
        let block = self.blocks[index];
        let ffn: usize = self.blocks[0].fc1.outputs;
        steps.push(VisionStep::Norm { norm: VisionNorm::First(index), rows, width: block.norm1 });
        steps.push(
            VisionStep::Linear {
                linear: VisionLinear::Qkv(index),
                rows,
                inputs: block.qkv.inputs,
                outputs: block.qkv.outputs,
                accumulate: false,
            },
        );
        attend(rows, self.heads, steps);
        steps.push(
            VisionStep::Linear {
                linear: VisionLinear::Projection(index),
                rows,
                inputs: block.projection.inputs,
                outputs: block.projection.outputs,
                accumulate: true,
            },
        );
        steps.push(VisionStep::Norm { norm: VisionNorm::Second(index), rows, width: block.norm2 });
        steps.push(
            VisionStep::Linear {
                linear: VisionLinear::Fc1(index),
                rows,
                inputs: block.fc1.inputs,
                outputs: block.fc1.outputs,
                accumulate: false,
            },
        );
        steps.push(VisionStep::Gelu { buffer: VisionBuffer::Expanded, count: rows * ffn, tanh: true });
        steps.push(
            VisionStep::Linear {
                linear: VisionLinear::Fc2(index),
                rows,
                inputs: block.fc2.inputs,
                outputs: block.fc2.outputs,
                accumulate: true,
            },
        );
        assert(steps@ =~= before + block_steps(block, index, ffn, rows, self.heads));
        let ghost middle = steps@;
        let place: Option<usize> = match index {
            8 => Some(0),
            16 => Some(1),
            24 => Some(2),
            _ => None,
        };
        if let Some(place) = place {
            let merger = self.deepstack[place];
            steps.push(VisionStep::Norm { norm: VisionNorm::Deep(place), rows: merged_rows, width: merger.norm });
            assert(merger_counts(self.deepstack@[place as int], merged_rows));
            merge(&merger, VisionLinear::DeepFc1(place), VisionLinear::DeepFc2(place), merged_rows, steps);
        }
        assert(steps@ =~= middle + deep_steps(self.deepstack@, index as int, merged_rows));
    }

    /// The launches that embed a picture of `rows` patches, joined to `merged_rows` tokens.
    pub fn encode(&self, rows: usize, merged_rows: usize) -> (steps: Vec<VisionStep>)
        requires
            self.counts(rows, merged_rows),
            self.is_matched(rows, merged_rows),
        ensures
            steps@ == encode_steps(*self, rows, merged_rows),
    {
        proof {
            arithmetic::products_grow(rows as int, self.hidden as int, rows as int, 3 * self.hidden);
        }
        let mut steps: Vec<VisionStep> = Vec::new();
        steps.push(VisionStep::PatchEmbed { rows, outputs: self.hidden });
        steps.push(VisionStep::AddPositions { count: rows * self.hidden });
        let ghost head = steps@;
        let count: usize = self.blocks.len();
        for index in 0..count
            invariant
                count == self.blocks@.len(),
                self.counts(rows, merged_rows),
                steps@ =~= head + blocks_steps(*self, rows, merged_rows, index as int),
        {
            self.run_block(index, rows, merged_rows, &mut steps);
        }
        steps.push(VisionStep::Norm { norm: VisionNorm::Main, rows, width: self.merger.norm });
        merge(&self.merger, VisionLinear::MainFc1, VisionLinear::MainFc2, merged_rows, &mut steps);
        assert(steps@ =~= encode_steps(*self, rows, merged_rows));
        steps
    }
}

/// The width of a normalization of a tower.
pub open spec fn width_of(encoder: CudaVisionEncoder, norm: VisionNorm) -> usize {
    match norm {
        VisionNorm::First(block) => encoder.blocks@[block as int].norm1,
        VisionNorm::Second(block) => encoder.blocks@[block as int].norm2,
        VisionNorm::Deep(index) => encoder.deepstack@[index as int].norm,
        VisionNorm::Main => encoder.merger.norm,
    }
}

/// Whether a tower has a normalization.
pub open spec fn has_norm(encoder: CudaVisionEncoder, norm: VisionNorm) -> bool {
    match norm {
        VisionNorm::First(block) | VisionNorm::Second(block) => block < encoder.blocks@.len(),
        VisionNorm::Deep(index) => index < DEEPSTACK,
        VisionNorm::Main => true,
    }
}

/// A linear layer of a tower.
pub open spec fn layer_of(encoder: CudaVisionEncoder, linear: VisionLinear) -> FullLinear {
    match linear {
        VisionLinear::Qkv(block) => encoder.blocks@[block as int].qkv,
        VisionLinear::Projection(block) => encoder.blocks@[block as int].projection,
        VisionLinear::Fc1(block) => encoder.blocks@[block as int].fc1,
        VisionLinear::Fc2(block) => encoder.blocks@[block as int].fc2,
        VisionLinear::DeepFc1(index) => encoder.deepstack@[index as int].fc1,
        VisionLinear::DeepFc2(index) => encoder.deepstack@[index as int].fc2,
        VisionLinear::MainFc1 => encoder.merger.fc1,
        VisionLinear::MainFc2 => encoder.merger.fc2,
    }
}

/// Whether a tower has a linear layer.
pub open spec fn has_layer(encoder: CudaVisionEncoder, linear: VisionLinear) -> bool {
    match linear {
        VisionLinear::Qkv(block) | VisionLinear::Projection(block) | VisionLinear::Fc1(block) | VisionLinear::Fc2(
            block,
        ) => block < encoder.blocks@.len(),
        VisionLinear::DeepFc1(index) | VisionLinear::DeepFc2(index) => index < DEEPSTACK,
        VisionLinear::MainFc1 | VisionLinear::MainFc2 => true,
    }
}

/// The name of a part of the main merger is that of the merger and of the part.
proof fn merger_names_are_whole()
    ensures
        "merger"@ + ".norm"@ == "merger.norm"@,
        "merger"@ + ".linear_fc1"@ == "merger.linear_fc1"@,
        "merger"@ + ".linear_fc2"@ == "merger.linear_fc2"@,
{
    reveal_strlit("merger");
    reveal_strlit(".norm");
    reveal_strlit("merger.norm");
    reveal_strlit(".linear_fc1");
    reveal_strlit("merger.linear_fc1");
    reveal_strlit(".linear_fc2");
    reveal_strlit("merger.linear_fc2");
    assert("merger"@ + ".norm"@ =~= "merger.norm"@);
    assert("merger"@ + ".linear_fc1"@ =~= "merger.linear_fc1"@);
    assert("merger"@ + ".linear_fc2"@ =~= "merger.linear_fc2"@);
}

/// Each normalization that a loaded tower has is the one of its name in the file.
pub proof fn a_norm_is_in_its_file(file: Seq<TensorInfo>, encoder: CudaVisionEncoder, norm: VisionNorm)
    requires
        is_tower(file, encoder),
        has_norm(encoder, norm),
    ensures
        norm_of(file, norm.letters()) == Ok::<usize, Seq<char>>(width_of(encoder, norm)),
{
    merger_names_are_whole();
    match norm {
        VisionNorm::First(block) | VisionNorm::Second(block) => {
            assert(block_of(file, block as nat) == Ok::<VisionBlock, Seq<char>>(encoder.blocks@[block as int]));
        },
        VisionNorm::Deep(index) => {
            let merger = encoder.deepstack@[index as int];
            assert(merger_of(file, "deepstack_merger_list."@ + text::decimal(index as nat)) == Ok::<Merger, Seq<char>>(
                merger,
            ));
        },
        VisionNorm::Main => {},
    }
}

/// Each linear layer that a loaded tower has is the one of its name in the file.
pub proof fn a_layer_is_in_its_file(file: Seq<TensorInfo>, encoder: CudaVisionEncoder, linear: VisionLinear)
    requires
        is_tower(file, encoder),
        has_layer(encoder, linear),
    ensures
        linear_of(file, linear.letters()) == Ok::<FullLinear, Seq<char>>(layer_of(encoder, linear)),
{
    merger_names_are_whole();
    match linear {
        VisionLinear::Qkv(block) | VisionLinear::Projection(block) | VisionLinear::Fc1(block) | VisionLinear::Fc2(
            block,
        ) => {
            assert(block_of(file, block as nat) == Ok::<VisionBlock, Seq<char>>(encoder.blocks@[block as int]));
        },
        VisionLinear::DeepFc1(index) | VisionLinear::DeepFc2(index) => {
            let merger = encoder.deepstack@[index as int];
            assert(merger_of(file, "deepstack_merger_list."@ + text::decimal(index as nat)) == Ok::<Merger, Seq<char>>(
                merger,
            ));
        },
        _ => {},
    }
}

/// Whether a tower has what a launch reads, and the launch stays in the buffers of its picture.
pub open spec fn step_fits(encoder: CudaVisionEncoder, rows: usize, merged_rows: usize, step: VisionStep) -> bool {
    let room = |buffer: VisionBuffer| encoder.capacity(rows, merged_rows, buffer);
    match step {
        VisionStep::PatchEmbed { rows, outputs } => rows * outputs <= room(VisionBuffer::States),
        VisionStep::AddPositions { count } => count <= room(VisionBuffer::States),
        VisionStep::Norm { norm, rows, width } => {
            &&& has_norm(encoder, norm)
            &&& width == width_of(encoder, norm)
            &&& rows * width <= room(VisionBuffer::States)
            &&& rows * width <= room(VisionBuffer::Normalized)
        },
        VisionStep::Linear { linear, rows, inputs, outputs, accumulate } => {
            &&& has_layer(encoder, linear)
            &&& layer_of(encoder, linear) == FullLinear { inputs, outputs }
            &&& rows * inputs <= room(linear.reads())
            &&& rows * outputs <= room(linear.writes())
        },
        VisionStep::Gelu { buffer, count, tanh } => count <= room(buffer),
        VisionStep::SplitRotate { rows, heads } => {
            &&& rows * (3 * (heads * HEAD_DIM)) <= room(VisionBuffer::Qkv)
            &&& heads * (rows * HEAD_DIM) <= room(VisionBuffer::Query)
            &&& heads * (rows * HEAD_DIM) <= room(VisionBuffer::Key)
            &&& heads * (rows * HEAD_DIM) <= room(VisionBuffer::Values)
        },
        VisionStep::Scores { offset, rows } => {
            &&& offset + rows * HEAD_DIM * 4 <= room(VisionBuffer::Query) * 4
            &&& offset + rows * HEAD_DIM * 4 <= room(VisionBuffer::Key) * 4
            &&& rows * rows <= room(VisionBuffer::Scores)
        },
        VisionStep::Softmax { rows } => rows * rows <= room(VisionBuffer::Scores),
        VisionStep::Weighted { offset, rows } => {
            &&& rows * rows <= room(VisionBuffer::Scores)
            &&& offset + rows * HEAD_DIM * 4 <= room(VisionBuffer::Values) * 4
            &&& offset + rows * HEAD_DIM * 4 <= room(VisionBuffer::Weighted) * 4
        },
        VisionStep::MergeHeads { rows, heads } => {
            &&& heads * (rows * HEAD_DIM) <= room(VisionBuffer::Weighted)
            &&& heads * (rows * HEAD_DIM) <= room(VisionBuffer::Attention)
        },
    }
}

spec fn steps_fit(encoder: CudaVisionEncoder, rows: usize, merged_rows: usize, steps: Seq<VisionStep>) -> bool {
    forall|i: int| 0 <= i < steps.len() ==> step_fits(encoder, rows, merged_rows, #[trigger] steps[i])
}

proof fn both_fit(
    encoder: CudaVisionEncoder,
    rows: usize,
    merged_rows: usize,
    one: Seq<VisionStep>,
    other: Seq<VisionStep>,
)
    requires
        steps_fit(encoder, rows, merged_rows, one),
        steps_fit(encoder, rows, merged_rows, other),
    ensures
        steps_fit(encoder, rows, merged_rows, one + other),
{
    let all = one + other;
    assert forall|i: int| 0 <= i < all.len() implies step_fits(encoder, rows, merged_rows, #[trigger] all[i]) by {
        if i < one.len() {
            assert(all[i] == one[i]);
        } else {
            assert(all[i] == other[i - one.len()]);
        }
    }
}

proof fn heads_fit(encoder: CudaVisionEncoder, rows: usize, merged_rows: usize, count: int)
    requires
        encoder.counts(rows, merged_rows),
        encoder.is_matched(rows, merged_rows),
        0 <= count <= encoder.heads,
    ensures
        steps_fit(encoder, rows, merged_rows, heads_steps(rows, count)),
    decreases count,
{
    if count > 0 {
        heads_fit(encoder, rows, merged_rows, count - 1);
        heads_fill_the_rows(rows, encoder.heads as int, encoder.hidden as int, count - 1);
        let offset = ((count - 1) * (rows * HEAD_DIM) * 4) as usize;
        let head = seq![
            VisionStep::Scores { offset, rows },
            VisionStep::Softmax { rows },
            VisionStep::Weighted { offset, rows },
        ];
        assert(0 <= (count - 1) * (rows * HEAD_DIM)) by (nonlinear_arith)
            requires
                count >= 1,
                rows >= 0,
        ;
        assert(offset == (count - 1) * (rows * HEAD_DIM) * 4);
        assert(rows * encoder.hidden * 4 == encoder.capacity(rows, merged_rows, VisionBuffer::Query) * 4);
        assert(step_fits(encoder, rows, merged_rows, head[0]));
        assert(step_fits(encoder, rows, merged_rows, head[2]));
        both_fit(encoder, rows, merged_rows, heads_steps(rows, count - 1), head);
    }
}

proof fn attention_fits(encoder: CudaVisionEncoder, rows: usize, merged_rows: usize)
    requires
        encoder.counts(rows, merged_rows),
        encoder.is_matched(rows, merged_rows),
    ensures
        steps_fit(encoder, rows, merged_rows, attend_steps(rows, encoder.heads)),
{
    let heads = encoder.heads;
    heads_fit(encoder, rows, merged_rows, heads as int);
    assert(heads * (rows * HEAD_DIM) == rows * (heads * HEAD_DIM)) by (nonlinear_arith);
    let first = seq![VisionStep::SplitRotate { rows, heads }];
    let last = seq![VisionStep::MergeHeads { rows, heads }];
    assert(step_fits(encoder, rows, merged_rows, first[0]));
    assert(step_fits(encoder, rows, merged_rows, last[0]));
    both_fit(encoder, rows, merged_rows, first, heads_steps(rows, heads as int));
    both_fit(encoder, rows, merged_rows, first + heads_steps(rows, heads as int), last);
}

proof fn a_block_fits(encoder: CudaVisionEncoder, rows: usize, merged_rows: usize, index: usize)
    requires
        encoder.counts(rows, merged_rows),
        encoder.is_matched(rows, merged_rows),
        index < encoder.blocks@.len(),
    ensures
        steps_fit(
            encoder,
            rows,
            merged_rows,
            block_steps(
                encoder.blocks@[index as int],
                index,
                encoder.blocks@[0].fc1.outputs,
                rows,
                encoder.heads,
            ),
        ),
{
    attention_fits(encoder, rows, merged_rows);
    let block = encoder.blocks@[index as int];
    let ffn = encoder.blocks@[0].fc1.outputs;
    assert(block_is_matched(block, rows, encoder.hidden, ffn));
    let attention = attend_steps(rows, encoder.heads);
    let steps = block_steps(block, index, ffn, rows, encoder.heads);
    let count = attention.len() as int;
    assert forall|i: int| 0 <= i < steps.len() implies step_fits(encoder, rows, merged_rows, #[trigger] steps[i]) by {
        if 2 <= i < 2 + count {
            assert(steps[i] == attention[i - 2]);
        }
    }
}

proof fn a_merger_fits(
    encoder: CudaVisionEncoder,
    rows: usize,
    merged_rows: usize,
    merging: Merging,
    first: VisionLinear,
    second: VisionLinear,
)
    requires
        encoder.counts(rows, merged_rows),
        encoder.is_matched(rows, merged_rows),
        merging matches Merging::Deep(index) ==> index < DEEPSTACK && first == VisionLinear::DeepFc1(index) && second
            == VisionLinear::DeepFc2(index),
        merging is Main ==> first == VisionLinear::MainFc1 && second == VisionLinear::MainFc2,
    ensures
        steps_fit(encoder, rows, merged_rows, merge_steps(encoder.merging(merging), first, second, merged_rows)),
{
    let merger = encoder.merging(merging);
    assert(merger_counts(merger, merged_rows));
    let steps = merge_steps(merger, first, second, merged_rows);
    if let Merging::Deep(index) = merging {
        assert(merger_is_matched(encoder.deepstack@[index as int], merged_rows, merged_rows, rows * encoder.hidden));
    }
    assert(step_fits(encoder, rows, merged_rows, steps[0]));
    assert(step_fits(encoder, rows, merged_rows, steps[1]));
    assert(step_fits(encoder, rows, merged_rows, steps[2]));
}

proof fn blocks_fit(encoder: CudaVisionEncoder, rows: usize, merged_rows: usize, count: int)
    requires
        encoder.counts(rows, merged_rows),
        encoder.is_matched(rows, merged_rows),
        0 <= count <= encoder.blocks@.len(),
    ensures
        steps_fit(encoder, rows, merged_rows, blocks_steps(encoder, rows, merged_rows, count)),
    decreases count,
{
    if count > 0 {
        blocks_fit(encoder, rows, merged_rows, count - 1);
        assert(encoder.blocks.len() == encoder.blocks@.len());
        a_block_fits(encoder, rows, merged_rows, (count - 1) as usize);
        let before = blocks_steps(encoder, rows, merged_rows, count - 1);
        let block = block_steps(
            encoder.blocks@[count - 1],
            (count - 1) as usize,
            encoder.blocks@[0].fc1.outputs,
            rows,
            encoder.heads,
        );
        let deep = deep_steps(encoder.deepstack@, count - 1, merged_rows);
        if let Some(place) = deepstack_of(count - 1) {
            let (first, second) = (VisionLinear::DeepFc1(place), VisionLinear::DeepFc2(place));
            a_merger_fits(encoder, rows, merged_rows, Merging::Deep(place), first, second);
            assert(merger_is_matched(encoder.deepstack@[place as int], merged_rows, merged_rows, rows * encoder.hidden));
            let merger = encoder.deepstack@[place as int];
            let norm = seq![VisionStep::Norm { norm: VisionNorm::Deep(place), rows: merged_rows, width: merger.norm }];
            assert(step_fits(encoder, rows, merged_rows, norm[0]));
            both_fit(encoder, rows, merged_rows, norm, merge_steps(merger, first, second, merged_rows));
        }
        both_fit(encoder, rows, merged_rows, before, block);
        both_fit(encoder, rows, merged_rows, before + block, deep);
    }
}

/// The tower has what every launch for a picture reads, and the launch stays in the picture's buffers.
pub proof fn a_picture_stays_in_its_buffers(encoder: CudaVisionEncoder, rows: usize, merged_rows: usize, step: int)
    requires
        encoder.counts(rows, merged_rows),
        encoder.is_matched(rows, merged_rows),
        0 <= step < encode_steps(encoder, rows, merged_rows).len(),
    ensures
        step_fits(encoder, rows, merged_rows, encode_steps(encoder, rows, merged_rows)[step]),
{
    let blocks = blocks_steps(encoder, rows, merged_rows, encoder.blocks@.len() as int);
    blocks_fit(encoder, rows, merged_rows, encoder.blocks@.len() as int);
    let (first, second) = (VisionLinear::MainFc1, VisionLinear::MainFc2);
    a_merger_fits(encoder, rows, merged_rows, Merging::Main, first, second);
    arithmetic::products_grow(rows as int, encoder.hidden as int, rows as int, 3 * encoder.hidden);
    let start = seq![
        VisionStep::PatchEmbed { rows, outputs: encoder.hidden },
        VisionStep::AddPositions { count: (rows * encoder.hidden) as usize },
    ];
    let norm = seq![VisionStep::Norm { norm: VisionNorm::Main, rows, width: encoder.merger.norm }];
    let merge = merge_steps(encoder.merger, first, second, merged_rows);
    assert(step_fits(encoder, rows, merged_rows, start[0]));
    assert(step_fits(encoder, rows, merged_rows, start[1]));
    assert(step_fits(encoder, rows, merged_rows, norm[0]));
    both_fit(encoder, rows, merged_rows, start, blocks);
    both_fit(encoder, rows, merged_rows, start + blocks, norm);
    both_fit(encoder, rows, merged_rows, start + blocks + norm, merge);
}

/// The heads of a picture lie one behind the other and fill its `rows × hidden` values.
pub proof fn heads_fill_the_rows(rows: usize, heads: int, hidden: int, head: int)
    requires
        hidden == heads * HEAD_DIM,
        0 <= head < heads,
    ensures
        head * (rows * HEAD_DIM) * 4 + rows * HEAD_DIM * 4 == (head + 1) * (rows * HEAD_DIM) * 4,
        (head + 1) * (rows * HEAD_DIM) * 4 <= rows * hidden * 4,
        heads * (rows * HEAD_DIM) * 4 == rows * hidden * 4,
{
    let values = rows * HEAD_DIM;
    assert(head * values * 4 + values * 4 == (head + 1) * values * 4) by (nonlinear_arith);
    arithmetic::products_grow(head + 1, values, heads, values);
    assert(heads * (rows * 72) == rows * (heads * 72)) by (nonlinear_arith);
}

/// How many of the launches begin a DeepStack feature.
pub open spec fn deep_norms(steps: Seq<VisionStep>, place: usize) -> nat
    decreases steps.len(),
{
    if steps.len() == 0 {
        0
    } else {
        deep_norms(steps.drop_last(), place) + (if steps.last() matches VisionStep::Norm { norm, rows, width } && norm
            == VisionNorm::Deep(place) {
            1nat
        } else {
            0nat
        })
    }
}

proof fn deep_norms_add(one: Seq<VisionStep>, other: Seq<VisionStep>, place: usize)
    ensures
        deep_norms(one + other, place) == deep_norms(one, place) + deep_norms(other, place),
    decreases other.len(),
{
    if other.len() == 0 {
        assert(one + other =~= one);
    } else {
        deep_norms_add(one, other.drop_last(), place);
        assert((one + other).drop_last() =~= one + other.drop_last());
    }
}

proof fn no_deep_norms(steps: Seq<VisionStep>, place: usize)
    requires
        forall|i: int|
            0 <= i < steps.len() ==> !((#[trigger] steps[i]) matches VisionStep::Norm { norm, rows, width } && norm
                == VisionNorm::Deep(place)),
    ensures
        deep_norms(steps, place) == 0,
    decreases steps.len(),
{
    if steps.len() > 0 {
        no_deep_norms(steps.drop_last(), place);
    }
}

proof fn heads_have_no_norm(rows: usize, count: int)
    ensures
        forall|i: int|
            0 <= i < heads_steps(rows, count).len() ==> !((#[trigger] heads_steps(rows, count)[i]) is Norm),
    decreases count,
{
    if count > 0 {
        heads_have_no_norm(rows, count - 1);
        let before = heads_steps(rows, count - 1);
        let steps = heads_steps(rows, count);
        assert forall|i: int| 0 <= i < steps.len() implies !((#[trigger] steps[i]) is Norm) by {
            if i < before.len() {
                assert(steps[i] == before[i]);
            }
        }
    }
}

proof fn blocks_deep_norms(encoder: CudaVisionEncoder, rows: usize, merged_rows: usize, count: int, place: usize)
    requires
        0 <= count <= encoder.blocks@.len(),
        place < DEEPSTACK,
    ensures
        deep_norms(blocks_steps(encoder, rows, merged_rows, count), place) == (if count > 8 * (place + 1) {
            1nat
        } else {
            0nat
        }),
    decreases count,
{
    if count > 0 {
        blocks_deep_norms(encoder, rows, merged_rows, count - 1, place);
        let before = blocks_steps(encoder, rows, merged_rows, count - 1);
        let block = block_steps(
            encoder.blocks@[count - 1],
            (count - 1) as usize,
            encoder.blocks@[0].fc1.outputs,
            rows,
            encoder.heads,
        );
        let deep = deep_steps(encoder.deepstack@, count - 1, merged_rows);
        heads_have_no_norm(rows, encoder.heads as int);
        let attention = heads_steps(rows, encoder.heads as int);
        assert forall|i: int| 0 <= i < block.len() implies !((#[trigger] block[i]) matches VisionStep::Norm {
            norm,
            rows,
            width,
        } && norm == VisionNorm::Deep(place)) by {
            if 3 <= i < 3 + attention.len() {
                assert(block[i] == attention[i - 3]);
            }
        }
        no_deep_norms(block, place);
        if let Some(at) = deepstack_of(count - 1) {
            let rest = merge_steps(
                encoder.deepstack@[at as int],
                VisionLinear::DeepFc1(at),
                VisionLinear::DeepFc2(at),
                merged_rows,
            );
            no_deep_norms(rest, place);
            let first = seq![deep[0]];
            assert(deep =~= first + rest);
            deep_norms_add(first, rest, place);
            reveal_with_fuel(deep_norms, 2);
            assert(first.drop_last() =~= Seq::<VisionStep>::empty());
        } else {
            no_deep_norms(deep, place);
        }
        deep_norms_add(before, block, place);
        deep_norms_add(before + block, deep, place);
    }
}

/// A tower of more than 24 blocks, as every loaded one is, gives each DeepStack feature once.
pub proof fn every_deepstack_feature_comes_once(
    encoder: CudaVisionEncoder,
    rows: usize,
    merged_rows: usize,
    place: usize,
)
    requires
        encoder.blocks@.len() > LAST_DEEPSTACK_BLOCK,
        place < DEEPSTACK,
    ensures
        deep_norms(encode_steps(encoder, rows, merged_rows), place) == 1,
{
    let blocks = blocks_steps(encoder, rows, merged_rows, encoder.blocks@.len() as int);
    let head = seq![
        VisionStep::PatchEmbed { rows, outputs: encoder.hidden },
        VisionStep::AddPositions { count: (rows * encoder.hidden) as usize },
    ];
    let tail = seq![VisionStep::Norm { norm: VisionNorm::Main, rows, width: encoder.merger.norm }] + merge_steps(
        encoder.merger,
        VisionLinear::MainFc1,
        VisionLinear::MainFc2,
        merged_rows,
    );
    assert(encode_steps(encoder, rows, merged_rows) =~= head + blocks + tail);
    blocks_deep_norms(encoder, rows, merged_rows, encoder.blocks@.len() as int, place);
    no_deep_norms(head, place);
    no_deep_norms(tail, place);
    deep_norms_add(head, blocks, place);
    deep_norms_add(head + blocks, tail, place);
}

} // verus!
