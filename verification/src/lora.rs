//! LoRAs on top of a DiT's weights.
//!
//! Every layer of a LoRA file adds `strength · alpha / rank · B · A` to its weight: as an adapter, whose
//! rank is padded with zeros to a multiple of 64 so that it runs inside the INT8 GEMM, or merged into INT8
//! weights. Other tensors of the file replace the checkpoint's tensors of the same name, or add new ones.
use crate::arithmetic;
use crate::checkpoint;
use crate::checkpoint::TensorInfo;
use crate::dit::{CudaDit, LoraMode};
use crate::model;
use crate::model::{DType, DeviceTensor, DeviceTensors, Error, LowRank, ADAPTER_RANK_MULTIPLE};
use crate::text;
use vstd::prelude::*;

verus! {

/// What the names of a LoRA file start with.
pub const PREFIX: &'static str = "diffusion_model.";

/// What a LoRA does to a layer.
#[allow(inconsistent_fields)]
#[derive(Clone, Copy, Debug, PartialEq, Eq, Structural)]
pub enum LoraAction {
    /// Goes into the INT8 weights. Where the layer's rows are interleaved, so are the up projection's.
    Merge { rank: usize, inputs: usize, outputs: usize, interleave: bool },
    /// Stands next to the weights, with its rank padded.
    Adapt { adapter: LowRank, interleave: bool },
}

/// A layer of a LoRA file, and where its down and up projections are in the file.
pub struct LoraLayer {
    pub layer: String,
    pub down: usize,
    pub up: usize,
    pub alpha: usize,
    pub action: LoraAction,
}

/// What becomes of a tensor of a LoRA file.
pub ghost enum LoraTurn {
    /// It is no down projection.
    Other,
    Refused(Seq<char>),
    Taken { layer: Seq<char>, up: int, alpha: int, action: LoraAction },
}

/// The layer whose down projection a tensor is.
pub open spec fn layer_name(name: Seq<char>) -> Option<Seq<char>> {
    match text::behind(name, PREFIX@) {
        Some(rest) => text::ahead(rest, ".lora_A.weight"@),
        None => None,
    }
}

/// Whether the rows of a layer are interleaved for SwiGLU where it is INT8.
pub open spec fn is_fc1(layer: Seq<char>) -> bool {
    text::ends(layer, ".mlp.fc1"@)
}

/// What becomes of the tensor at `place` of a LoRA file.
pub open spec fn turn(dit: CudaDit, file: Seq<TensorInfo>, mode: LoraMode, place: int) -> LoraTurn {
    match layer_name(file[place].name@) {
        None => LoraTurn::Other,
        Some(layer) => match dit.tensors.find(layer + ".weight"@) {
            None => LoraTurn::Refused(model::missing_tensor(layer + ".weight"@)),
            Some(weight) => match checkpoint::place_of(file, PREFIX@ + layer + ".lora_B.weight"@) {
                None => LoraTurn::Refused(layer + " has no lora_B"@),
                Some(up) => match checkpoint::place_of(file, PREFIX@ + layer + ".alpha"@) {
                    None => LoraTurn::Refused(model::missing_tensor(PREFIX@ + layer + ".alpha"@)),
                    Some(alpha) => {
                        let (rank, inputs, outputs) = (
                            file[place].shape@[0],
                            file[place].shape@[1],
                            file[up].shape@[0],
                        );
                        let int8 = weight.dtype == DType::I8;
                        if file[place].dtype != DType::Bf16 || file[up].dtype != DType::Bf16 || file[up].shape@[1]
                            != rank || inputs != weight.shape@[1] || outputs != weight.shape@[0] {
                            LoraTurn::Refused("the LoRA of "@ + layer + " does not fit the layer"@)
                        } else if !int8 && weight.dtype != DType::Bf16 {
                            LoraTurn::Refused("LoRA on "@ + layer + " needs BF16 activations"@)
                        } else if dit.nvfp4@.dom().contains(layer) {
                            LoraTurn::Refused(layer + ": add LoRAs before switching to NVFP4"@)
                        } else if mode == LoraMode::Merge && int8 {
                            LoraTurn::Taken {
                                layer,
                                up,
                                alpha,
                                action: LoraAction::Merge { rank, inputs, outputs, interleave: is_fc1(layer) },
                            }
                        } else if dit.adapters@.dom().contains(layer) {
                            LoraTurn::Refused(layer + " already has a LoRA"@)
                        } else {
                            LoraTurn::Taken {
                                layer,
                                up,
                                alpha,
                                action: LoraAction::Adapt {
                                    adapter: LowRank {
                                        columns: if int8 {
                                            Some(arithmetic::round_up(rank as int, 128) as usize)
                                        } else {
                                            None
                                        },
                                        rank: arithmetic::round_up(rank as int, ADAPTER_RANK_MULTIPLE as int) as usize,
                                        inputs,
                                        outputs,
                                    },
                                    interleave: is_fc1(layer) && int8,
                                },
                            }
                        }
                    },
                },
            },
        },
    }
}

/// Whether the projections of a LoRA file and the weights they are for have two dimensions each, and their
/// ranks can be padded.
pub open spec fn has_matrices(dit: CudaDit, file: Seq<TensorInfo>) -> bool {
    &&& forall|i: int|
        0 <= i < file.len() && (text::ends((#[trigger] file[i]).name@, ".lora_A.weight"@) || text::ends(
            file[i].name@,
            ".lora_B.weight"@,
        )) ==> file[i].shape@.len() >= 2 && arithmetic::round_up(file[i].shape@[0] as int, 128) <= usize::MAX
            && arithmetic::round_up(file[i].shape@[0] as int, 64) <= usize::MAX
    &&& forall|i: int|
        0 <= i < file.len() ==> (layer_name((#[trigger] file[i]).name@) matches Some(layer) ==> dit.is_matrix(layer))
}

/// Whether `taken` is what a turn comes to.
pub open spec fn comes_to(taken: Result<Option<LoraLayer>, Error>, turn: LoraTurn, place: int) -> bool {
    match turn {
        LoraTurn::Other => taken matches Ok(None),
        LoraTurn::Refused(words) => taken matches Err(error) && error.says(words),
        LoraTurn::Taken { layer, up, alpha, action } => {
            &&& taken matches Ok(Some(taken))
            &&& taken.layer@ == layer
            &&& taken.down == place
            &&& taken.up == up
            &&& taken.alpha == alpha
            &&& taken.action == action
        },
    }
}

fn prefixed(layer: &String, rest: &str) -> (name: String)
    ensures
        name@ == PREFIX@ + layer@ + rest@,
{
    let mut name = String::from_str(PREFIX);
    name.append(layer.as_str());
    name.append(rest);
    name
}

fn around(before: &str, layer: &String, after: &str) -> (error: Error)
    ensures
        error.says(before@ + layer@ + after@),
{
    let mut message = String::from_str(before);
    message.append(layer.as_str());
    message.append(after);
    Error::Model(message)
}

fn behind_it(layer: &String, after: &str) -> (error: Error)
    ensures
        error.says(layer@ + after@),
{
    let mut message = layer.clone();
    message.append(after);
    Error::Model(message)
}

proof fn ends_with_its_end(text: Seq<char>, end: Seq<char>, whole: Seq<char>)
    requires
        whole == text + end,
    ensures
        text::ends(whole, end),
{
    assert(whole.skip(whole.len() - end.len()) =~= end);
}

/// The name of the file tensor whose name without the prefix ends so ends so too.
proof fn down_ends(name: Seq<char>)
    requires
        layer_name(name) is Some,
    ensures
        text::ends(name, ".lora_A.weight"@),
{
    let rest = text::behind(name, PREFIX@)->0;
    let end = ".lora_A.weight"@;
    assert(name.skip(name.len() - end.len()) =~= rest.skip(rest.len() - end.len()));
}

fn is_padded(shape: &Vec<usize>) -> (answer: bool)
    ensures
        answer == (shape@.len() >= 2 && arithmetic::round_up(shape@[0] as int, 128) <= usize::MAX
            && arithmetic::round_up(shape@[0] as int, 64) <= usize::MAX),
{
    shape.len() >= 2 && arithmetic::can_round_up(shape[0], 128) && arithmetic::can_round_up(shape[0], 64)
}

/// Whether the projections of a LoRA file and the weights they are for have two dimensions each, and their
/// ranks can be padded.
pub fn are_matrices(dit: &CudaDit, file: &Vec<TensorInfo>) -> (answer: bool)
    requires
        dit.valid(),
    ensures
        answer == has_matrices(*dit, file@),
{
    let count: usize = file.len();
    for place in 0..count
        invariant
            count == file@.len(),
            dit.valid(),
            has_matrices(*dit, file@.take(place as int)),
    {
        let name = file[place].name.as_str();
        if (text::ends_with(name, ".lora_A.weight") || text::ends_with(name, ".lora_B.weight")) && !is_padded(
            &file[place].shape,
        ) {
            return false;
        }
        if let Some(rest) = text::without_start(name, PREFIX) {
            if let Some(layer) = text::without_end(rest.as_str(), ".lora_A.weight") {
                let mut weight_name = layer.clone();
                weight_name.append(".weight");
                if let Some(weight) = dit.tensors.optional(weight_name.as_str()) {
                    if weight.shape.len() < 2 {
                        assert(!dit.is_matrix(layer@));
                        return false;
                    }
                }
                assert(dit.is_matrix(layer@));
            }
        }
        proof {
            let (before, after) = (file@.take(place as int), file@.take(place + 1));
            assert forall|i: int|
                0 <= i < after.len() && (text::ends((#[trigger] after[i]).name@, ".lora_A.weight"@) || text::ends(
                    after[i].name@,
                    ".lora_B.weight"@,
                )) implies after[i].shape@.len() >= 2 && arithmetic::round_up(after[i].shape@[0] as int, 128)
                <= usize::MAX && arithmetic::round_up(after[i].shape@[0] as int, 64) <= usize::MAX by {
                if i < place {
                    assert(before[i] == after[i]);
                }
            }
            assert forall|i: int| 0 <= i < after.len() implies (layer_name((#[trigger] after[i]).name@) matches Some(layer)
                ==> dit.is_matrix(layer)) by {
                if i < place {
                    assert(before[i] == after[i]);
                }
            }
        }
    }
    assert(file@.take(count as int) =~= file@);
    true
}

/// What becomes of the tensor at `place` of a LoRA file.
pub fn take(dit: &CudaDit, file: &Vec<TensorInfo>, mode: LoraMode, place: usize) -> (taken: Result<Option<LoraLayer>, Error>)
    requires
        dit.valid(),
        has_matrices(*dit, file@),
        place < file@.len(),
    ensures
        comes_to(taken, turn(*dit, file@, mode, place as int), place as int),
{
    let rest = match text::without_start(file[place].name.as_str(), PREFIX) {
        Some(rest) => rest,
        None => {
            return Ok(None);
        },
    };
    let layer = match text::without_end(rest.as_str(), ".lora_A.weight") {
        Some(layer) => layer,
        None => {
            return Ok(None);
        },
    };
    let mut weight_name = layer.clone();
    weight_name.append(".weight");
    let weight = dit.tensors.get(weight_name.as_str())?;
    let up_name = prefixed(&layer, ".lora_B.weight");
    let up = match checkpoint::find(file, &up_name) {
        Some(up) => up,
        None => {
            return Err(behind_it(&layer, " has no lora_B"));
        },
    };
    let alpha_name = prefixed(&layer, ".alpha");
    let alpha = match checkpoint::find(file, &alpha_name) {
        Some(alpha) => alpha,
        None => {
            let mut message = String::from_str("missing tensor ");
            message.append(alpha_name.as_str());
            return Err(Error::Model(message));
        },
    };
    proof {
        down_ends(file@[place as int].name@);
        checkpoint::found_is_named(file@, up_name@);
        ends_with_its_end(PREFIX@ + layer@, ".lora_B.weight"@, up_name@);
        assert(dit.is_matrix(layer@));
    }
    let rank: usize = file[place].shape[0];
    let inputs: usize = file[place].shape[1];
    let outputs: usize = file[up].shape[0];
    let int8 = weight.dtype == DType::I8;
    if file[place].dtype != DType::Bf16 || file[up].dtype != DType::Bf16 || file[up].shape[1] != rank || inputs
        != weight.shape[1] || outputs != weight.shape[0] {
        return Err(around("the LoRA of ", &layer, " does not fit the layer"));
    }
    if !int8 && weight.dtype != DType::Bf16 {
        return Err(around("LoRA on ", &layer, " needs BF16 activations"));
    }
    if dit.nvfp4.contains(layer.as_str()) {
        return Err(behind_it(&layer, ": add LoRAs before switching to NVFP4"));
    }
    let fc1 = text::ends_with(layer.as_str(), ".mlp.fc1");
    let action = if mode == LoraMode::Merge && int8 {
        LoraAction::Merge { rank, inputs, outputs, interleave: fc1 }
    } else {
        if dit.adapters.contains(layer.as_str()) {
            return Err(behind_it(&layer, " already has a LoRA"));
        }
        let columns = if int8 {
            Some(arithmetic::rounded_up(rank, 128))
        } else {
            None
        };
        LoraAction::Adapt {
            adapter: LowRank {
                columns,
                rank: arithmetic::rounded_up(rank, ADAPTER_RANK_MULTIPLE),
                inputs,
                outputs,
            },
            interleave: fc1 && int8,
        }
    };
    Ok(Some(LoraLayer { layer, down: place, up, alpha, action }))
}

/// Whether `layers` are what the first `count` tensors of a LoRA file come to, none of which is refused.
pub open spec fn are_layers(
    dit: CudaDit,
    file: Seq<TensorInfo>,
    mode: LoraMode,
    count: int,
    layers: Seq<LoraLayer>,
) -> bool
    decreases count,
{
    if count <= 0 {
        layers.len() == 0
    } else {
        match turn(dit, file, mode, count - 1) {
            LoraTurn::Other => are_layers(dit, file, mode, count - 1, layers),
            LoraTurn::Refused(_) => false,
            LoraTurn::Taken { .. } => {
                &&& layers.len() > 0
                &&& are_layers(dit, file, mode, count - 1, layers.drop_last())
                &&& comes_to(Ok(Some(layers.last())), turn(dit, file, mode, count - 1), count - 1)
            },
        }
    }
}

/// Whether the tensor at `place` is the first one that is refused, with these words.
pub open spec fn first_refused(
    dit: CudaDit,
    file: Seq<TensorInfo>,
    mode: LoraMode,
    place: int,
    words: Seq<char>,
) -> bool {
    &&& 0 <= place < file.len()
    &&& turn(dit, file, mode, place) == LoraTurn::Refused(words)
    &&& forall|i: int| 0 <= i < place ==> !((#[trigger] turn(dit, file, mode, i)) is Refused)
}

/// The layers a LoRA file is for, with what it does to each, in the order of the file.
pub fn layers(dit: &CudaDit, file: &Vec<TensorInfo>, mode: LoraMode) -> (layers: Result<Vec<LoraLayer>, Error>)
    requires
        dit.valid(),
        has_matrices(*dit, file@),
    ensures
        match layers {
            Ok(layers) => are_layers(*dit, file@, mode, file@.len() as int, layers@),
            Err(error) => exists|place: int, words: Seq<char>|
                #[trigger] first_refused(*dit, file@, mode, place, words) && error.says(words),
        },
{
    let mut layers: Vec<LoraLayer> = Vec::new();
    let count: usize = file.len();
    for place in 0..count
        invariant
            count == file@.len(),
            dit.valid(),
            has_matrices(*dit, file@),
            are_layers(*dit, file@, mode, place as int, layers@),
            forall|i: int| 0 <= i < place ==> !((#[trigger] turn(*dit, file@, mode, i)) is Refused),
    {
        match take(dit, file, mode, place) {
            Err(error) => {
                proof {
                    let words = turn(*dit, file@, mode, place as int)->Refused_0;
                    assert(first_refused(*dit, file@, mode, place as int, words));
                }
                return Err(error);
            },
            Ok(None) => {},
            Ok(Some(taken)) => {
                let ghost before = layers@;
                layers.push(taken);
                assert(layers@.drop_last() =~= before);
            },
        }
    }
    Ok(layers)
}

/// A tensor of a LoRA file that is taken as it is.
pub struct LoraTensor {
    pub name: String,
    pub place: usize,
    /// Whether it is the time table, which stays on the host.
    pub time_table: bool,
}

/// What becomes of a tensor of a LoRA file that is no part of an adapter.
pub ghost enum TensorTurn {
    Other,
    Refused(Seq<char>),
    Taken { name: Seq<char>, time_table: bool },
}

/// What becomes of a tensor: it replaces the checkpoint's tensor of the same name, which has to be like it,
/// or adds a new one.
pub open spec fn tensor_turn(dit: CudaDit, info: TensorInfo) -> TensorTurn {
    match text::behind(info.name@, PREFIX@) {
        None => TensorTurn::Other,
        Some(name) => if text::ends(name, ".lora_A.weight"@) || text::ends(name, ".lora_B.weight"@) || text::ends(
            name,
            ".alpha"@,
        ) {
            TensorTurn::Other
        } else if name == "adaln_t_table"@ {
            TensorTurn::Taken { name, time_table: true }
        } else {
            match dit.tensors.find(name) {
                Some(held) => if held.dtype != info.dtype || held.shape@ != info.shape@ {
                    TensorTurn::Refused(name + " in the LoRA does not match the checkpoint's"@)
                } else {
                    TensorTurn::Taken { name, time_table: false }
                },
                None => TensorTurn::Taken { name, time_table: false },
            }
        },
    }
}

fn same_shape(one: &Vec<usize>, other: &Vec<usize>) -> (same: bool)
    ensures
        same == (one@ == other@),
{
    if one.len() != other.len() {
        return false;
    }
    let count: usize = one.len();
    for index in 0..count
        invariant
            count == one@.len(),
            count == other@.len(),
            forall|i: int| 0 <= i < index ==> one@[i] == other@[i],
    {
        if one[index] != other[index] {
            return false;
        }
    }
    assert(one@ =~= other@);
    true
}

/// Whether `tensors` are what the first `count` tensors of a LoRA file replace or add.
pub open spec fn are_tensors(dit: CudaDit, file: Seq<TensorInfo>, count: int, tensors: Seq<LoraTensor>) -> bool
    decreases count,
{
    if count <= 0 {
        tensors.len() == 0
    } else {
        match tensor_turn(dit, file[count - 1]) {
            TensorTurn::Other => are_tensors(dit, file, count - 1, tensors),
            TensorTurn::Refused(_) => false,
            TensorTurn::Taken { name, time_table } => {
                &&& tensors.len() > 0
                &&& are_tensors(dit, file, count - 1, tensors.drop_last())
                &&& tensors.last().name@ == name
                &&& tensors.last().place == count - 1
                &&& tensors.last().time_table == time_table
            },
        }
    }
}

/// Whether the tensor at `place` is the first one that does not match the checkpoint's.
pub open spec fn first_mismatch(dit: CudaDit, file: Seq<TensorInfo>, place: int, words: Seq<char>) -> bool {
    &&& 0 <= place < file.len()
    &&& tensor_turn(dit, file[place]) == TensorTurn::Refused(words)
    &&& forall|i: int| 0 <= i < place ==> !((#[trigger] tensor_turn(dit, file[i])) is Refused)
}

/// Whether `taken` is what a turn comes to.
pub open spec fn tensor_comes_to(taken: Result<Option<LoraTensor>, Error>, turn: TensorTurn, place: int) -> bool {
    match turn {
        TensorTurn::Other => taken matches Ok(None),
        TensorTurn::Refused(words) => taken matches Err(error) && error.says(words),
        TensorTurn::Taken { name, time_table } => {
            &&& taken matches Ok(Some(tensor))
            &&& tensor.name@ == name
            &&& tensor.place == place
            &&& tensor.time_table == time_table
        },
    }
}

/// What becomes of the tensor at `place` of a LoRA file that is no part of an adapter.
pub fn take_tensor(dit: &CudaDit, file: &Vec<TensorInfo>, place: usize) -> (taken: Result<Option<LoraTensor>, Error>)
    requires
        dit.valid(),
        place < file@.len(),
    ensures
        tensor_comes_to(taken, tensor_turn(*dit, file@[place as int]), place as int),
{
    let name = match text::without_start(file[place].name.as_str(), PREFIX) {
        Some(name) => name,
        None => {
            return Ok(None);
        },
    };
    let adapted = text::ends_with(name.as_str(), ".lora_A.weight") || text::ends_with(name.as_str(), ".lora_B.weight")
        || text::ends_with(name.as_str(), ".alpha");
    if adapted {
        return Ok(None);
    }
    let time_table = name == String::from_str("adaln_t_table");
    if !time_table {
        if let Some(held) = dit.tensors.optional(name.as_str()) {
            if held.dtype != file[place].dtype || !same_shape(&held.shape, &file[place].shape) {
                return Err(behind_it(&name, " in the LoRA does not match the checkpoint's"));
            }
        }
    }
    Ok(Some(LoraTensor { name, place, time_table }))
}

/// The tensors of a LoRA file that replace the checkpoint's or add new ones, whatever the strength.
pub fn tensors(dit: &CudaDit, file: &Vec<TensorInfo>) -> (tensors: Result<Vec<LoraTensor>, Error>)
    requires
        dit.valid(),
    ensures
        match tensors {
            Ok(tensors) => are_tensors(*dit, file@, file@.len() as int, tensors@),
            Err(error) => exists|place: int, words: Seq<char>|
                #[trigger] first_mismatch(*dit, file@, place, words) && error.says(words),
        },
{
    let mut tensors: Vec<LoraTensor> = Vec::new();
    let count: usize = file.len();
    for place in 0..count
        invariant
            count == file@.len(),
            dit.valid(),
            are_tensors(*dit, file@, place as int, tensors@),
            forall|i: int| 0 <= i < place ==> !((#[trigger] tensor_turn(*dit, file@[i])) is Refused),
    {
        match take_tensor(dit, file, place) {
            Err(error) => {
                proof {
                    let words = tensor_turn(*dit, file@[place as int])->Refused_0;
                    assert(first_mismatch(*dit, file@, place as int, words));
                }
                return Err(error);
            },
            Ok(None) => {},
            Ok(Some(taken)) => {
                let ghost before = tensors@;
                tensors.push(taken);
                assert(tensors@.drop_last() =~= before);
            },
        }
    }
    Ok(tensors)
}

/// Whether the rows of a tensor that was replaced or added are to be interleaved for SwiGLU.
pub open spec fn interleaves(dit: CudaDit, name: Seq<char>) -> bool {
    let layer = match text::ahead(name, ".weight"@) {
        Some(layer) => Some(layer),
        None => text::ahead(name, ".weight_scale"@),
    };
    layer matches Some(layer) && is_fc1(layer) && (dit.tensors.find(layer + ".weight"@) matches Some(weight)
        && weight.dtype == DType::I8)
}

/// Whether the rows of a tensor that was replaced or added are to be interleaved for SwiGLU.
pub fn is_interleaved(dit: &CudaDit, name: &str) -> (interleaved: bool)
    requires
        dit.valid(),
    ensures
        interleaved == interleaves(*dit, name@),
{
    let layer = match text::without_end(name, ".weight") {
        Some(layer) => Some(layer),
        None => text::without_end(name, ".weight_scale"),
    };
    match layer {
        Some(layer) => text::ends_with(layer.as_str(), ".mlp.fc1") && dit.tensors.is_int8(layer.as_str()),
        None => false,
    }
}

/// The adapters with those of the first `count` layers.
pub open spec fn with_adapters(adapters: Map<Seq<char>, LowRank>, layers: Seq<LoraLayer>, count: int) -> Map<
    Seq<char>,
    LowRank,
>
    decreases count,
{
    if count <= 0 {
        adapters
    } else {
        let before = with_adapters(adapters, layers, count - 1);
        match layers[count - 1].action {
            LoraAction::Adapt { adapter, interleave } => before.insert(layers[count - 1].layer@, adapter),
            LoraAction::Merge { .. } => before,
        }
    }
}

/// The names of those of the first `count` tensors that go to the device.
pub open spec fn device_names(tensors: Seq<LoraTensor>, count: int) -> Seq<Seq<char>>
    decreases count,
{
    if count <= 0 {
        Seq::empty()
    } else if tensors[count - 1].time_table {
        device_names(tensors, count - 1)
    } else {
        device_names(tensors, count - 1).push(tensors[count - 1].name@)
    }
}

/// Whether `uploaded` are the tensors of a LoRA file that go to the device, in their order.
pub open spec fn are_uploaded(tensors: Seq<LoraTensor>, uploaded: Seq<DeviceTensor>) -> bool {
    let names = device_names(tensors, tensors.len() as int);
    &&& uploaded.len() == names.len()
    &&& forall|k: int| 0 <= k < uploaded.len() ==> (#[trigger] uploaded[k]).name@ == names[k]
}

/// The tensor of a name in a table once the first `count` of `uploaded` are in it.
pub open spec fn find_behind(
    table: DeviceTensors,
    uploaded: Seq<DeviceTensor>,
    count: int,
    name: Seq<char>,
) -> Option<DeviceTensor>
    decreases count,
{
    if count <= 0 {
        table.find(name)
    } else if uploaded[count - 1].name@ == name {
        Some(uploaded[count - 1])
    } else {
        find_behind(table, uploaded, count - 1, name)
    }
}

/// The tensors of a table that the first `count` of `uploaded` take the places of.
pub open spec fn displaced(table: DeviceTensors, uploaded: Seq<DeviceTensor>, count: int) -> Seq<DeviceTensor>
    decreases count,
{
    if count <= 0 {
        Seq::empty()
    } else {
        let before = displaced(table, uploaded, count - 1);
        match find_behind(table, uploaded, count - 1, uploaded[count - 1].name@) {
            Some(held) => before.push(held),
            None => before,
        }
    }
}

/// What a LoRA that was taken in comes to.
pub struct Added {
    /// The layers and tensors it changed.
    pub count: usize,
    /// The tensors that others took the places of.
    pub displaced: Vec<DeviceTensor>,
}

impl CudaDit {
    /// Takes in the adapters of a LoRA's layers and its tensors, `uploaded` those of them that are on the device. The
    /// adapters may change the refiner, so the text states it refined before are kept no more.
    pub fn add_lora(
        &mut self,
        layers: &Vec<LoraLayer>,
        tensors: &Vec<LoraTensor>,
        uploaded: Vec<DeviceTensor>,
    ) -> (added: Added)
        requires
            old(self).valid(),
            layers@.len() + tensors@.len() <= usize::MAX,
            are_uploaded(tensors@, uploaded@),
        ensures
            final(self).valid(),
            added.count == layers@.len() + tensors@.len(),
            final(self).adapters@ == with_adapters(old(self).adapters@, layers@, layers@.len() as int),
            forall|name: Seq<char>| #[trigger]
                final(self).tensors.find(name) == find_behind(
                    old(self).tensors,
                    uploaded@,
                    uploaded@.len() as int,
                    name,
                ),
            added.displaced@ == displaced(old(self).tensors, uploaded@, uploaded@.len() as int),
            !final(self).text_kept,
            final(self).config == old(self).config,
            final(self).attention_precision == old(self).attention_precision,
            final(self).nvfp4 == old(self).nvfp4,
            final(self).histories == old(self).histories,
    {
        let count: usize = layers.len();
        for index in 0..count
            invariant
                count == layers@.len(),
                self.valid(),
                self.adapters@ == with_adapters(old(self).adapters@, layers@, index as int),
                self.config == old(self).config,
                self.attention_precision == old(self).attention_precision,
                self.tensors == old(self).tensors,
                self.nvfp4 == old(self).nvfp4,
                self.histories == old(self).histories,
        {
            match layers[index].action {
                LoraAction::Adapt { adapter, interleave } => {
                    self.adapters.insert(layers[index].layer.clone(), adapter);
                },
                LoraAction::Merge { rank, inputs, outputs, interleave } => {},
            }
        }
        let ghost adapters = self.adapters;
        let ghost list = uploaded@;
        let mut displaced: Vec<DeviceTensor> = Vec::new();
        for tensor in items: uploaded
            invariant
                items.seq() == list,
                self.valid(),
                self.adapters == adapters,
                self.config == old(self).config,
                self.attention_precision == old(self).attention_precision,
                self.nvfp4 == old(self).nvfp4,
                self.histories == old(self).histories,
                forall|name: Seq<char>| #[trigger]
                    self.tensors.find(name) == find_behind(old(self).tensors, list, items.index() as int, name),
                displaced@ == self::displaced(old(self).tensors, list, items.index() as int),
        {
            if let Some(held) = self.tensors.insert(tensor) {
                displaced.push(held);
            }
        }
        self.text_kept = false;
        Added { count: count + tensors.len(), displaced }
    }
}

proof fn an_uploaded_tensor_is_found(table: DeviceTensors, uploaded: Seq<DeviceTensor>, count: int, k: int)
    requires
        0 <= k < count <= uploaded.len(),
    ensures
        find_behind(table, uploaded, count, uploaded[k].name@) matches Some(held) && uploaded.contains(held)
            && held.name@ == uploaded[k].name@,
    decreases count,
{
    if uploaded[count - 1].name@ != uploaded[k].name@ {
        an_uploaded_tensor_is_found(table, uploaded, count - 1, k);
    }
}

proof fn a_name_goes_to_the_device(tensors: Seq<LoraTensor>, count: int, k: int) -> (place: int)
    requires
        0 <= k < count <= tensors.len(),
        !tensors[k].time_table,
    ensures
        0 <= place < device_names(tensors, count).len(),
        device_names(tensors, count)[place] == tensors[k].name@,
    decreases count,
{
    if k == count - 1 {
        device_names(tensors, count).len() - 1
    } else {
        a_name_goes_to_the_device(tensors, count - 1, k)
    }
}

/// Every tensor that a LoRA file replaces or adds is in the table behind it, as it was uploaded, but for the time table,
/// and a tensor of another name is as it was.
pub proof fn a_lora_leaves_its_tensors(table: DeviceTensors, tensors: Seq<LoraTensor>, uploaded: Seq<DeviceTensor>, k: int)
    requires
        are_uploaded(tensors, uploaded),
        0 <= k < tensors.len(),
        !tensors[k].time_table,
    ensures
        find_behind(table, uploaded, uploaded.len() as int, tensors[k].name@) matches Some(held) && uploaded.contains(
            held,
        ) && held.name@ == tensors[k].name@,
        forall|name: Seq<char>|
            (forall|i: int| 0 <= i < uploaded.len() ==> (#[trigger] uploaded[i]).name@ != name)
                ==> #[trigger] find_behind(table, uploaded, uploaded.len() as int, name) == table.find(name),
{
    let place = a_name_goes_to_the_device(tensors, tensors.len() as int, k);
    assert(uploaded[place].name@ == tensors[k].name@);
    an_uploaded_tensor_is_found(table, uploaded, uploaded.len() as int, place);
    assert forall|name: Seq<char>|
        (forall|i: int| 0 <= i < uploaded.len() ==> (#[trigger] uploaded[i]).name@ != name) implies #[trigger] find_behind(
    table, uploaded, uploaded.len() as int, name) == table.find(name) by {
        others_are_as_they_were(table, uploaded, uploaded.len() as int, name);
    }
}

proof fn others_are_as_they_were(table: DeviceTensors, uploaded: Seq<DeviceTensor>, count: int, name: Seq<char>)
    requires
        count <= uploaded.len(),
        forall|i: int| 0 <= i < uploaded.len() ==> (#[trigger] uploaded[i]).name@ != name,
    ensures
        find_behind(table, uploaded, count, name) == table.find(name),
    decreases count,
{
    if count > 0 {
        assert(uploaded[count - 1].name@ != name);
        others_are_as_they_were(table, uploaded, count - 1, name);
    }
}

/// How many of the first `count` tensors of a file are of a kind by their names.
pub open spec fn named_so(file: Seq<TensorInfo>, kind: spec_fn(Seq<char>) -> bool, count: int) -> nat
    decreases count,
{
    if count <= 0 {
        0
    } else {
        named_so(file, kind, count - 1) + (if kind(file[count - 1].name@) {
            1nat
        } else {
            0nat
        })
    }
}

/// Whether a name is of a tensor that is taken as it is: it has the prefix, and no part of an adapter has it.
pub open spec fn is_whole_tensor(name: Seq<char>) -> bool {
    text::behind(name, PREFIX@) matches Some(rest) && !text::ends(rest, ".lora_A.weight"@) && !text::ends(
        rest,
        ".lora_B.weight"@,
    ) && !text::ends(rest, ".alpha"@)
}

proof fn layers_are_counted(dit: CudaDit, file: Seq<TensorInfo>, mode: LoraMode, count: int, layers: Seq<LoraLayer>)
    requires
        count <= file.len(),
        are_layers(dit, file, mode, count, layers),
    ensures
        layers.len() == named_so(file, |name: Seq<char>| layer_name(name) is Some, count),
    decreases count,
{
    if count > 0 {
        match turn(dit, file, mode, count - 1) {
            LoraTurn::Other => layers_are_counted(dit, file, mode, count - 1, layers),
            _ => layers_are_counted(dit, file, mode, count - 1, layers.drop_last()),
        }
    }
}

proof fn tensors_are_counted(dit: CudaDit, file: Seq<TensorInfo>, count: int, tensors: Seq<LoraTensor>)
    requires
        count <= file.len(),
        are_tensors(dit, file, count, tensors),
    ensures
        tensors.len() == named_so(file, |name: Seq<char>| is_whole_tensor(name), count),
    decreases count,
{
    if count > 0 {
        match tensor_turn(dit, file[count - 1]) {
            TensorTurn::Other => tensors_are_counted(dit, file, count - 1, tensors),
            _ => tensors_are_counted(dit, file, count - 1, tensors.drop_last()),
        }
    }
}

/// A LoRA counts a layer for each down projection of its file, whatever the mode, and each other tensor that is no part
/// of an adapter once.
pub proof fn a_lora_counts_its_names(
    dit: CudaDit,
    file: Seq<TensorInfo>,
    mode: LoraMode,
    layers: Seq<LoraLayer>,
    tensors: Seq<LoraTensor>,
)
    requires
        are_layers(dit, file, mode, file.len() as int, layers),
        are_tensors(dit, file, file.len() as int, tensors),
    ensures
        layers.len() == named_so(file, |name: Seq<char>| layer_name(name) is Some, file.len() as int),
        tensors.len() == named_so(file, |name: Seq<char>| is_whole_tensor(name), file.len() as int),
{
    layers_are_counted(dit, file, mode, file.len() as int, layers);
    tensors_are_counted(dit, file, file.len() as int, tensors);
}

/// A sum over `count` products of a row of the up projection and a column of the down projection.
pub open spec fn product(up: spec_fn(int) -> int, down: spec_fn(int) -> int, count: int) -> int
    decreases count,
{
    if count <= 0 {
        0
    } else {
        product(up, down, count - 1) + up(count - 1) * down(count - 1)
    }
}

/// Zeros behind the rank leave what an adapter adds as it is.
pub proof fn padding_leaves_the_product(up: spec_fn(int) -> int, down: spec_fn(int) -> int, rank: int, padded: int)
    requires
        0 <= rank <= padded,
        forall|k: int| rank <= k < padded ==> #[trigger] up(k) == 0 && down(k) == 0,
    ensures
        product(up, down, padded) == product(up, down, rank),
    decreases padded,
{
    if rank < padded {
        padding_leaves_the_product(up, down, rank, padded - 1);
        assert(up(padded - 1) == 0);
    }
}

} // verus!
