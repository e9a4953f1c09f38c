//! Pieces shared by the model runners: errors, checkpoint tensors on the device and the launches of
//! their linear layers.
use crate::arithmetic;
use crate::device::{CudaError, DeviceBuffer};
use crate::gemm;
use crate::loader::LoadError;
use crate::plan;
use crate::plan::Plan;
use crate::shard::Run;
use crate::text;
use vstd::prelude::*;

verus! {

/// ConvRot rotates activations in groups of this many features.
pub const CONVROT_GROUP: usize = 256;

/// The INT8 GEMM adds low-rank adapters whose rank is a multiple of this inside its epilogue.
pub const ADAPTER_RANK_MULTIPLE: usize = 64;

/// What stops a model runner.
#[derive(Debug)]
pub enum Error {
    Cuda(CudaError),
    Model(String),
}

impl Error {
    /// Whether this is an error of the model that says `message`.
    pub open spec fn says(self, message: Seq<char>) -> bool {
        self matches Error::Model(text) && text@ == message
    }

    /// The error as a line of text.
    pub fn text(&self) -> (line: String)
        ensures
            match self {
                Error::Cuda(error) => line@ == "CUDA error "@ + text::signed_decimal(error.code as int) + ": "@
                    + error.message@,
                Error::Model(message) => line@ == message@,
            },
    {
        match self {
            Error::Cuda(error) => error.text(),
            Error::Model(message) => message.clone(),
        }
    }

    /// What a model runner makes of weights that could not be loaded.
    pub fn of_load(error: LoadError) -> (converted: Error)
        ensures
            match error {
                LoadError::Cuda(cuda) => converted == Error::Cuda(cuda),
                LoadError::Io(fault) => converted.says("reading weights: "@ + fault.message@),
            },
    {
        match error {
            LoadError::Cuda(cuda) => Error::Cuda(cuda),
            LoadError::Io(fault) => {
                let mut message = String::from_str("reading weights: ");
                message.append(fault.message.as_str());
                Error::Model(message)
            },
        }
    }
}

/// `message` about the thing named `name`.
fn about(name: &str, message: &str) -> (error: Error)
    ensures
        error.says(name@ + message@),
{
    let mut whole = String::from_str(name);
    whole.append(message);
    Error::Model(whole)
}

/// Element types of checkpoint tensors.
#[derive(Clone, Copy, Debug, PartialEq, Eq, Structural)]
pub enum DType {
    Bool,
    U8,
    I8,
    I16,
    U16,
    I32,
    U32,
    I64,
    U64,
    F8E4M3,
    F8E5M2,
    F16,
    Bf16,
    F32,
    F64,
}

impl DType {
    pub open spec fn letters(self) -> Seq<char> {
        match self {
            DType::Bool => "BOOL"@,
            DType::U8 => "U8"@,
            DType::I8 => "I8"@,
            DType::I16 => "I16"@,
            DType::U16 => "U16"@,
            DType::I32 => "I32"@,
            DType::U32 => "U32"@,
            DType::I64 => "I64"@,
            DType::U64 => "U64"@,
            DType::F8E4M3 => "F8_E4M3"@,
            DType::F8E5M2 => "F8_E5M2"@,
            DType::F16 => "F16"@,
            DType::Bf16 => "BF16"@,
            DType::F32 => "F32"@,
            DType::F64 => "F64"@,
        }
    }

    /// The name a checkpoint gives it.
    pub fn name(self) -> (name: &'static str)
        ensures
            name@ == self.letters(),
    {
        match self {
            DType::Bool => "BOOL",
            DType::U8 => "U8",
            DType::I8 => "I8",
            DType::I16 => "I16",
            DType::U16 => "U16",
            DType::I32 => "I32",
            DType::U32 => "U32",
            DType::I64 => "I64",
            DType::U64 => "U64",
            DType::F8E4M3 => "F8_E4M3",
            DType::F8E5M2 => "F8_E5M2",
            DType::F16 => "F16",
            DType::Bf16 => "BF16",
            DType::F32 => "F32",
            DType::F64 => "F64",
        }
    }
}

/// A checkpoint tensor on the device.
pub struct DeviceTensor {
    pub name: String,
    pub dtype: DType,
    pub shape: Vec<usize>,
    pub buffer: DeviceBuffer,
}

/// Checkpoint tensors on the device, by their names without the checkpoint prefix.
pub struct DeviceTensors {
    list: Vec<DeviceTensor>,
}

pub open spec fn missing_tensor(name: Seq<char>) -> Seq<char> {
    "missing tensor "@ + name
}

/// Whether the tensor at `index` of `list` is the one of the name `name`.
pub open spec fn is_named(list: Seq<DeviceTensor>, name: Seq<char>, index: int) -> bool {
    0 <= index < list.len() && list[index].name@ == name
}

/// The tensor of the name `name`, if there is one.
pub open spec fn tensor_of(list: Seq<DeviceTensor>, name: Seq<char>) -> Option<DeviceTensor> {
    if exists|index: int| is_named(list, name, index) {
        Some(list[choose|index: int| is_named(list, name, index)])
    } else {
        None
    }
}

impl DeviceTensors {
    /// No two tensors are of one name.
    pub closed spec fn valid(self) -> bool {
        forall|i: int, j: int|
            0 <= i < j < self.list@.len() ==> (#[trigger] self.list@[i]).name@ != (#[trigger] self.list@[j]).name@
    }

    /// The tensors, in the order their names were first inserted.
    pub closed spec fn tensors(self) -> Seq<DeviceTensor> {
        self.list@
    }

    pub open spec fn find(self, name: Seq<char>) -> Option<DeviceTensor> {
        tensor_of(self.tensors(), name)
    }

    pub fn new() -> (tensors: DeviceTensors)
        ensures
            tensors.valid(),
            tensors.tensors() == Seq::<DeviceTensor>::empty(),
    {
        DeviceTensors { list: Vec::new() }
    }

    fn place(&self, name: &str) -> (place: Option<usize>)
        ensures
            match place {
                Some(index) => is_named(self.list@, name@, index as int),
                None => forall|index: int| !is_named(self.list@, name@, index),
            },
    {
        let wanted = String::from_str(name);
        let count: usize = self.list.len();
        for index in 0..count
            invariant
                count == self.list@.len(),
                wanted@ == name@,
                forall|i: int| 0 <= i < index ==> !is_named(self.list@, name@, i),
        {
            if self.list[index].name == wanted {
                assert(is_named(self.list@, name@, index as int));
                return Some(index);
            }
        }
        None
    }

    /// Puts a tensor in the table, in place of the one of its name.
    pub fn insert(&mut self, tensor: DeviceTensor) -> (replaced: Option<DeviceTensor>)
        requires
            old(self).valid(),
        ensures
            final(self).valid(),
            final(self).find(tensor.name@) == Some(tensor),
            replaced == old(self).find(tensor.name@),
            forall|name: Seq<char>|
                name != tensor.name@ ==> #[trigger] final(self).find(name) == old(self).find(name),
    {
        let ghost before = self.list@;
        match self.place(tensor.name.as_str()) {
            Some(index) => {
                let ghost name = tensor.name@;
                let mut held = tensor;
                std::mem::swap(&mut held, &mut self.list[index]);
                proof {
                    assert(self.list@ =~= before.update(index as int, tensor));
                    names_are_unique(before, name, index as int);
                    assert(is_named(self.list@, name, index as int));
                    names_are_unique(self.list@, name, index as int);
                    assert forall|other: Seq<char>| other != name implies #[trigger] self.find(other) == old(self).find(
                        other,
                    ) by {
                        same_elsewhere(before, self.list@, other);
                    }
                }
                Some(held)
            },
            None => {
                let ghost name = tensor.name@;
                self.list.push(tensor);
                proof {
                    let last = before.len() as int;
                    assert forall|i: int, j: int| 0 <= i < j < self.list@.len() implies (
                    #[trigger] self.list@[i]).name@ != (#[trigger] self.list@[j]).name@ by {
                        if j == last {
                            assert(!is_named(before, name, i));
                        }
                    }
                    assert(is_named(self.list@, name, last));
                    names_are_unique(self.list@, name, last);
                    assert forall|other: Seq<char>| other != name implies #[trigger] self.find(other) == old(self).find(
                        other,
                    ) by {
                        same_elsewhere(before, self.list@, other);
                    }
                }
                None
            },
        }
    }

    /// Takes the tensor of the name `name` out of the table.
    pub fn remove(&mut self, name: &str) -> (removed: Option<DeviceTensor>)
        requires
            old(self).valid(),
        ensures
            final(self).valid(),
            removed == old(self).find(name@),
            final(self).find(name@) is None,
            forall|other: Seq<char>| other != name@ ==> #[trigger] final(self).find(other) == old(self).find(other),
    {
        let ghost before = self.list@;
        match self.place(name) {
            None => None,
            Some(index) => {
                let removed = self.list.remove(index);
                proof {
                    let after = self.list@;
                    names_are_unique(before, name@, index as int);
                    assert(after =~= before.remove(index as int));
                    assert forall|i: int| 0 <= i < after.len() implies (#[trigger] after[i]) == before[if i < index {
                        i
                    } else {
                        i + 1
                    }] by {}
                    assert forall|i: int, j: int| 0 <= i < j < after.len() implies (#[trigger] after[i]).name@ != (
                    #[trigger] after[j]).name@ by {}
                    assert forall|i: int| !is_named(after, name@, i) by {
                        if is_named(after, name@, i) {
                            let at = if i < index {
                                i
                            } else {
                                i + 1
                            };
                            assert(is_named(before, name@, at));
                        }
                    }
                    assert forall|other: Seq<char>| other != name@ implies #[trigger] self.find(other) == old(
                        self,
                    ).find(other) by {
                        if exists|i: int| is_named(before, other, i) {
                            let i = choose|i: int| is_named(before, other, i);
                            let at = if i < index {
                                i
                            } else {
                                i - 1
                            };
                            assert(is_named(after, other, at));
                            names_are_unique(after, other, at);
                        } else if exists|i: int| is_named(after, other, i) {
                            let i = choose|i: int| is_named(after, other, i);
                            let at = if i < index {
                                i
                            } else {
                                i + 1
                            };
                            assert(is_named(before, other, at));
                        }
                    }
                }
                Some(removed)
            },
        }
    }

    pub fn optional(&self, name: &str) -> (tensor: Option<&DeviceTensor>)
        requires
            self.valid(),
        ensures
            match self.find(name@) {
                Some(found) => tensor == Some(&found),
                None => tensor is None,
            },
    {
        match self.place(name) {
            Some(index) => {
                proof {
                    names_are_unique(self.list@, name@, index as int);
                }
                Some(&self.list[index])
            },
            None => None,
        }
    }

    /// The tensor of the name `name`, or that it is missing.
    pub fn get(&self, name: &str) -> (tensor: Result<&DeviceTensor, Error>)
        requires
            self.valid(),
        ensures
            match self.find(name@) {
                Some(found) => tensor matches Ok(tensor) && *tensor == found,
                None => tensor matches Err(error) && error.says(missing_tensor(name@)),
            },
    {
        match self.optional(name) {
            Some(tensor) => Ok(tensor),
            None => {
                let mut message = String::from_str("missing tensor ");
                message.append(name);
                Err(Error::Model(message))
            },
        }
    }

    /// Whether `{name}.weight` is INT8.
    pub fn is_int8(&self, name: &str) -> (int8: bool)
        requires
            self.valid(),
        ensures
            int8 == (self.find(name@ + ".weight"@) matches Some(weight) && weight.dtype == DType::I8),
    {
        let mut weight = String::from_str(name);
        weight.append(".weight");
        match self.optional(weight.as_str()) {
            Some(tensor) => tensor.dtype == DType::I8,
            None => false,
        }
    }
}

/// The tensors of a layer whose rows are put in the order of the INT8 GEMM's SwiGLU output: those of an INT8 layer, with
/// its bias where it has one.
pub open spec fn interleaved_layer(tensors: DeviceTensors, layer: Seq<char>, biased: bool) -> Plan<Seq<char>> {
    let (weight, scale, bias) = (layer + ".weight"@, layer + ".weight_scale"@, layer + ".bias"@);
    if !(tensors.find(weight) matches Some(held) && held.dtype == DType::I8) {
        plan::nothing()
    } else if tensors.find(scale) is None {
        Err(missing_tensor(scale))
    } else if !biased {
        Ok(seq![weight, scale])
    } else if tensors.find(bias) is None {
        Err(missing_tensor(bias))
    } else {
        Ok(seq![weight, scale, bias])
    }
}

/// The tensors of the first `count` layers whose rows are put in the order of the INT8 GEMM's SwiGLU output.
pub open spec fn interleaved_layers(
    tensors: DeviceTensors,
    start: Seq<char>,
    end: Seq<char>,
    biased: bool,
    count: int,
) -> Plan<Seq<char>>
    decreases count,
{
    if count <= 0 {
        plan::nothing()
    } else {
        plan::both(
            interleaved_layers(tensors, start, end, biased, count - 1),
            interleaved_layer(tensors, start + text::decimal((count - 1) as nat) + end, biased),
        )
    }
}

proof fn a_refused_layer_stays(
    tensors: DeviceTensors,
    start: Seq<char>,
    end: Seq<char>,
    biased: bool,
    count: int,
    all: int,
)
    requires
        0 <= count <= all,
        interleaved_layers(tensors, start, end, biased, count) is Err,
    ensures
        interleaved_layers(tensors, start, end, biased, all) == interleaved_layers(tensors, start, end, biased, count),
    decreases all,
{
    if count < all {
        a_refused_layer_stays(tensors, start, end, biased, count, all - 1);
    }
}

/// The letters of names.
pub open spec fn letters(names: Seq<String>) -> Seq<Seq<char>> {
    names.map_values(|name: String| name@)
}

impl DeviceTensors {
    fn interleave_layer(&self, layer: &str, biased: bool, names: &mut Vec<String>) -> (result: Result<(), Error>)
        requires
            self.valid(),
        ensures
            match interleaved_layer(*self, layer@, biased) {
                Ok(list) => result is Ok && letters(final(names)@) == letters(old(names)@) + list,
                Err(words) => result matches Err(error) && error.says(words),
            },
    {
        let ghost before = names@;
        if !self.is_int8(layer) {
            assert(letters(before) + Seq::<Seq<char>>::empty() =~= letters(before));
            return Ok(());
        }
        let mut weight = String::from_str(layer);
        weight.append(".weight");
        let mut scale = String::from_str(layer);
        scale.append(".weight_scale");
        self.get(scale.as_str())?;
        names.push(weight);
        names.push(scale);
        if biased {
            let mut bias = String::from_str(layer);
            bias.append(".bias");
            self.get(bias.as_str())?;
            names.push(bias);
        }
        assert(letters(names@) =~= letters(before) + interleaved_layer(*self, layer@, biased)->Ok_0);
        Ok(())
    }

    /// The names of the tensors whose rows are put in the order of the INT8 GEMM's SwiGLU output once they are loaded:
    /// those of the INT8 layers `{start}{layer}{end}`.
    pub fn interleaved(&self, start: &str, layers: usize, end: &str, biased: bool) -> (names: Result<
        Vec<String>,
        Error,
    >)
        requires
            self.valid(),
        ensures
            match interleaved_layers(*self, start@, end@, biased, layers as int) {
                Ok(list) => names matches Ok(names) && letters(names@) == list,
                Err(words) => names matches Err(error) && error.says(words),
            },
    {
        let mut names: Vec<String> = Vec::new();
        assert(letters(names@) =~= Seq::empty());
        for layer in 0..layers
            invariant
                self.valid(),
                interleaved_layers(*self, start@, end@, biased, layer as int) == Ok::<Seq<Seq<char>>, Seq<char>>(
                    letters(names@),
                ),
        {
            let mut name = String::from_str(start);
            text::push_size(&mut name, layer);
            name.append(end);
            match self.interleave_layer(name.as_str(), biased, &mut names) {
                Ok(_) => {},
                Err(error) => {
                    proof {
                        a_refused_layer_stays(*self, start@, end@, biased, layer + 1, layers as int);
                    }
                    return Err(error);
                },
            }
        }
        Ok(names)
    }
}

spec fn unique_names(list: Seq<DeviceTensor>) -> bool {
    forall|i: int, j: int| 0 <= i < j < list.len() ==> (#[trigger] list[i]).name@ != (#[trigger] list[j]).name@
}

proof fn names_are_unique(list: Seq<DeviceTensor>, name: Seq<char>, index: int)
    requires
        unique_names(list),
        is_named(list, name, index),
    ensures
        tensor_of(list, name) == Some(list[index]),
        forall|other: int| is_named(list, name, other) ==> other == index,
{
    assert forall|other: int| is_named(list, name, other) implies other == index by {
        if other < index {
            assert(list[other].name@ != list[index].name@);
        } else if index < other {
            assert(list[index].name@ != list[other].name@);
        }
    }
}

/// A table that holds a name at the same places as another holds it as the other does.
proof fn same_elsewhere(before: Seq<DeviceTensor>, after: Seq<DeviceTensor>, name: Seq<char>)
    requires
        unique_names(before),
        unique_names(after),
        before.len() <= after.len(),
        forall|i: int| 0 <= i < before.len() && before[i].name@ == name ==> (#[trigger] after[i]) == before[i],
        forall|i: int|
            0 <= i < after.len() && (#[trigger] after[i]).name@ == name ==> i < before.len() && before[i] == after[i],
    ensures
        tensor_of(before, name) == tensor_of(after, name),
{
    if exists|i: int| is_named(before, name, i) {
        let i = choose|i: int| is_named(before, name, i);
        assert(after[i] == before[i]);
        assert(is_named(after, name, i));
        names_are_unique(after, name, i);
        names_are_unique(before, name, i);
    } else if exists|i: int| is_named(after, name, i) {
        let i = choose|i: int| is_named(after, name, i);
        assert(is_named(before, name, i));
    }
}

/// Element type of a cuBLASLt linear layer's input, weight, bias and output.
#[derive(Clone, Copy, Debug, PartialEq, Eq, Structural)]
pub enum LinearKind {
    Bf16,
    F32,
    F16,
}

impl LinearKind {
    /// Its number in the kernels' interface.
    pub fn code(self) -> (code: i32)
        ensures
            code == (match self {
                LinearKind::Bf16 => 0i32,
                LinearKind::F32 => 1i32,
                LinearKind::F16 => 2i32,
            }),
    {
        match self {
            LinearKind::Bf16 => 0,
            LinearKind::F32 => 1,
            LinearKind::F16 => 2,
        }
    }
}

/// A low-rank adapter of one linear layer: output += scale · up · (down · input).
#[derive(Clone, Copy, Debug, PartialEq, Eq, Structural)]
pub struct LowRank {
    /// For INT8 ConvRot layers, whose down projection is rotated like the activations and quantized to
    /// INT8 `[columns, inputs]`: the rank padded with zero rows to a multiple of 128, the INT8 GEMM's
    /// tile width. None for a BF16 down projection `[rank, inputs]`.
    pub columns: Option<usize>,
    pub rank: usize,
    pub inputs: usize,
    pub outputs: usize,
}

impl LowRank {
    /// Values per input row the adapter's scratch buffer needs.
    pub open spec fn scratch(self) -> nat {
        match self.columns {
            Some(columns) => columns as nat,
            None => self.rank as nat,
        }
    }

    /// Values per input row the adapter's scratch buffer needs.
    pub fn scratch_columns(&self) -> (columns: usize)
        ensures
            columns == self.scratch(),
    {
        match self.columns {
            Some(columns) => columns,
            None => self.rank,
        }
    }

    /// The rows a down projection of this rank is padded to for an INT8 ConvRot layer.
    pub fn padded_columns(rank: usize) -> (columns: usize)
        requires
            arithmetic::round_up(rank as int, 128) <= usize::MAX,
        ensures
            columns == arithmetic::round_up(rank as int, 128),
    {
        arithmetic::rounded_up(rank, 128)
    }
}

/// `data` cut or padded with zeros to `size` bytes.
pub fn padded(data: &[u8], size: usize) -> (bytes: Vec<u8>)
    ensures
        bytes@ == Seq::new(
            size as nat,
            |i: int|
                if i < data@.len() {
                    data@[i]
                } else {
                    0
                },
        ),
{
    let mut bytes: Vec<u8> = Vec::new();
    let length: usize = data.len();
    for place in 0..size
        invariant
            length == data@.len(),
            bytes@.len() == place,
            forall|i: int|
                0 <= i < place ==> (#[trigger] bytes@[i]) == (if i < data@.len() {
                    data@[i]
                } else {
                    0
                }),
    {
        if place < length {
            bytes.push(data[place]);
        } else {
            bytes.push(0);
        }
    }
    bytes
}

/// Rows of `row` bytes each, each padded with zeros to `wide` bytes.
pub fn padded_rows(data: &[u8], rows: usize, row: usize, wide: usize) -> (bytes: Vec<u8>)
    requires
        0 < row <= wide,
        data@.len() == rows * row,
        rows * wide <= usize::MAX,
    ensures
        bytes@.len() == rows * wide,
        forall|at: int, place: int|
            #![trigger bytes@[at * wide + place]]
            0 <= at < rows && 0 <= place < wide ==> bytes@[at * wide + place] == (if place < row {
                data@[at * row + place]
            } else {
                0
            }),
{
    let size: usize = data.len();
    let mut bytes: Vec<u8> = Vec::new();
    let total: usize = rows * wide;
    for at in 0..total
        invariant
            0 < row <= wide,
            data@.len() == rows * row,
            data@.len() == size,
            total == rows * wide,
            bytes@.len() == at,
            forall|i: int|
                0 <= i < at ==> (#[trigger] bytes@[i]) == (if (i % (wide as int)) < row {
                    data@[i / wide as int * row + i % wide as int]
                } else {
                    0
                }),
    {
        let line: usize = at / wide;
        let place: usize = at % wide;
        proof {
            arithmetic::quotient_is_inside(at as int, rows as int, wide as int);
        }
        if place < row {
            proof {
                arithmetic::nested_is_inside(line as int, rows as int, place as int, row as int);
            }
            bytes.push(data[line * row + place]);
        } else {
            bytes.push(0);
        }
    }
    proof {
        assert forall|at: int, place: int|
            #![trigger bytes@[at * wide + place]]
            0 <= at < rows && 0 <= place < wide implies bytes@[at * wide + place] == (if place < row {
            data@[at * row + place]
        } else {
            0
        }) by {
            let i = at * wide + place;
            arithmetic::nested_is_inside(at, rows as int, place, wide as int);
            arithmetic::quotient_of_nested(at, place, wide as int);
            assert(bytes@[i] == (if (i % (wide as int)) < row {
                data@[i / wide as int * row + i % wide as int]
            } else {
                0
            }));
        }
    }
    bytes
}

/// The values as 32-bit little-endian numbers, of which only the low 32 bits are kept.
pub fn i32_bytes(values: &Vec<usize>) -> (bytes: Vec<u8>)
    ensures
        bytes@.len() == values@.len() * 4,
        forall|k: int, place: int|
            #![trigger bytes@[k * 4 + place]]
            0 <= k < values@.len() && 0 <= place < 4 ==> bytes@[k * 4 + place] == low_byte(values@[k] as int, place),
{
    let mut bytes: Vec<u8> = Vec::new();
    let count: usize = values.len();
    for index in 0..count
        invariant
            count == values@.len(),
            bytes@.len() == index * 4,
            forall|k: int, place: int|
                #![trigger bytes@[k * 4 + place]]
                0 <= k < index && 0 <= place < 4 ==> bytes@[k * 4 + place] == low_byte(values@[k] as int, place),
    {
        let value: usize = values[index];
        bytes.push((value % 0x100) as u8);
        bytes.push((value / 0x100 % 0x100) as u8);
        bytes.push((value / 0x1_0000 % 0x100) as u8);
        bytes.push((value / 0x100_0000 % 0x100) as u8);
    }
    bytes
}

/// The byte at `place` of a number, the least significant first.
pub open spec fn low_byte(value: int, place: int) -> u8 {
    if place == 0 {
        (value % 0x100) as u8
    } else if place == 1 {
        (value / 0x100 % 0x100) as u8
    } else if place == 2 {
        (value / 0x1_0000 % 0x100) as u8
    } else {
        (value / 0x100_0000 % 0x100) as u8
    }
}

/// What the table says of a linear layer.
#[derive(Clone, Copy, Debug, PartialEq, Eq, Structural)]
pub struct Layer {
    pub dtype: DType,
    pub outputs: usize,
    pub features: usize,
    /// Whether it has a scale per output.
    pub scaled: bool,
    pub bias: bool,
}

/// An adapter inside an INT8 GEMM: its rank, and the elements between the rows of its down projection.
#[derive(Clone, Copy, Debug, PartialEq, Eq, Structural)]
pub struct AdapterPart {
    pub rank: usize,
    pub stride: usize,
}

/// One launch of a linear layer.
#[derive(Clone, Copy, Debug, PartialEq, Eq, Structural)]
pub enum LinearStep {
    /// Rotates the BF16 input and quantizes it into the quantization buffers.
    RotateQuantize { rows: usize, features: usize },
    /// The adapter's INT8 down projection of the quantized input into its scratch buffer.
    QuantizedDown { config: usize, rows: usize, columns: usize, inputs: usize },
    /// The INT8 GEMM over the weight's rows from `first` on, with the adapter inside it.
    Int8 {
        config: usize,
        rows: usize,
        first: usize,
        outputs: usize,
        features: usize,
        /// Elements between the rows of the output, or zero for rows side by side.
        stride: usize,
        swiglu: bool,
        adapter: Option<AdapterPart>,
    },
    /// `output[rows, outputs] = input[rows, features] · weightᵀ + bias` through cuBLASLt.
    Product { kind: LinearKind, rows: usize, outputs: usize, features: usize, bias: bool },
    /// The adapter's BF16 down projection of the input into its scratch buffer.
    Down { rows: usize, rank: usize, inputs: usize },
    /// The adapter's up projection out of its scratch buffer, added to the output.
    Up { rows: usize, outputs: usize, rank: usize },
}

/// What an INT8 layer's adapter comes to: its down projection, and its part in the INT8 GEMM.
pub open spec fn quantized_adapter(name: Seq<char>, adapter: Option<LowRank>, rows: usize) -> Result<
    (Seq<LinearStep>, Option<AdapterPart>),
    Seq<char>,
> {
    match adapter {
        None => Ok((Seq::empty(), None)),
        Some(low) => if low.rank % ADAPTER_RANK_MULTIPLE != 0 {
            Err(name + ": the adapter rank must be a multiple of "@ + text::decimal(ADAPTER_RANK_MULTIPLE as nat))
        } else {
            match low.columns {
                None => Err("the adapter of an INT8 layer needs a quantized down projection"@),
                Some(columns) => Ok(
                    (
                        seq![
                            LinearStep::QuantizedDown {
                                config: gemm::tile_config(rows as int, columns as int, low.inputs as int) as usize,
                                rows,
                                columns,
                                inputs: low.inputs,
                            },
                        ],
                        Some(AdapterPart { rank: low.rank, stride: columns }),
                    ),
                ),
            }
        },
    }
}

/// Why the layer cannot run as an INT8 ConvRot layer, if it cannot.
pub open spec fn int8_refusal(name: Seq<char>, layer: Layer) -> Option<Seq<char>> {
    if !layer.scaled {
        Some(missing_tensor(name + ".weight_scale"@))
    } else if layer.dtype != DType::I8 || layer.features % CONVROT_GROUP != 0 || layer.bias {
        Some(name + ": unsupported INT8 layer"@)
    } else {
        None
    }
}

/// The launches of an INT8 ConvRot layer: the quantization of its BF16 input unless that is already
/// quantized, the adapter's down projection, and the INT8 GEMM with the adapter inside it.
pub open spec fn int8_steps(
    name: Seq<char>,
    layer: Layer,
    rows: usize,
    adapter: Option<LowRank>,
    quantized: bool,
    swiglu: bool,
) -> Result<Seq<LinearStep>, Seq<char>> {
    match int8_refusal(name, layer) {
        Some(refusal) => Err(refusal),
        None => match quantized_adapter(name, adapter, rows) {
            Err(refusal) => Err(refusal),
            Ok((down, part)) => {
                let head = if quantized {
                    Seq::empty()
                } else {
                    seq![LinearStep::RotateQuantize { rows, features: layer.features }]
                };
                Ok(
                    head + down + seq![
                        LinearStep::Int8 {
                            config: gemm::tile_config(
                                rows as int,
                                layer.outputs as int,
                                layer.features as int,
                            ) as usize,
                            rows,
                            first: 0,
                            outputs: layer.outputs,
                            features: layer.features,
                            stride: 0,
                            swiglu,
                            adapter: part,
                        },
                    ],
                )
            },
        },
    }
}

/// The launches of a linear layer. The input and output types follow the weight: BF16 for BF16 and
/// INT8 ConvRot weights, FP32 for FP32 weights.
pub open spec fn linear_steps(
    name: Seq<char>,
    layer: Option<Layer>,
    rows: usize,
    adapter: Option<LowRank>,
) -> Result<Seq<LinearStep>, Seq<char>> {
    match layer {
        None => Err(missing_tensor(name + ".weight"@)),
        Some(layer) => if layer.dtype == DType::I8 {
            int8_steps(name, layer, rows, adapter, false, false)
        } else if layer.dtype == DType::Bf16 || layer.dtype == DType::F32 {
            let product = seq![
                LinearStep::Product {
                    kind: if layer.dtype == DType::Bf16 {
                        LinearKind::Bf16
                    } else {
                        LinearKind::F32
                    },
                    rows,
                    outputs: layer.outputs,
                    features: layer.features,
                    bias: layer.bias,
                },
            ];
            match adapter {
                None => Ok(product),
                Some(low) => if low.columns is Some {
                    Err("a quantized down projection needs an INT8 layer"@)
                } else {
                    Ok(
                        product + seq![
                            LinearStep::Down { rows, rank: low.rank, inputs: low.inputs },
                            LinearStep::Up { rows, outputs: low.outputs, rank: low.rank },
                        ],
                    )
                },
            }
        } else {
            Err(name + ": unsupported weight dtype "@ + layer.dtype.letters())
        },
    }
}

/// The down projection of an INT8 layer's adapter, and its part in the INT8 GEMM.
pub fn adapter_down(name: &str, adapter: Option<LowRank>, rows: usize) -> (result: Result<
    (Vec<LinearStep>, Option<AdapterPart>),
    Error,
>)
    ensures
        match quantized_adapter(name@, adapter, rows) {
            Ok((steps, part)) => result matches Ok(found) && found.0@ == steps && found.1 == part,
            Err(words) => result matches Err(error) && error.says(words),
        },
{
    let mut steps: Vec<LinearStep> = Vec::new();
    match adapter {
        None => {
            assert(steps@ =~= Seq::empty());
            Ok((steps, None))
        },
        Some(low) => {
            if low.rank % ADAPTER_RANK_MULTIPLE != 0 {
                let mut message = String::from_str(name);
                message.append(": the adapter rank must be a multiple of ");
                text::push_size(&mut message, ADAPTER_RANK_MULTIPLE);
                return Err(Error::Model(message));
            }
            match low.columns {
                None => Err(
                    Error::Model(
                        String::from_str("the adapter of an INT8 layer needs a quantized down projection"),
                    ),
                ),
                Some(columns) => {
                    steps.push(
                        LinearStep::QuantizedDown {
                            config: gemm::int8_config(rows, columns, low.inputs),
                            rows,
                            columns,
                            inputs: low.inputs,
                        },
                    );
                    assert(steps@ =~= seq![
                        LinearStep::QuantizedDown {
                            config: gemm::tile_config(rows as int, columns as int, low.inputs as int) as usize,
                            rows,
                            columns,
                            inputs: low.inputs,
                        },
                    ]);
                    Ok((steps, Some(AdapterPart { rank: low.rank, stride: columns })))
                },
            }
        },
    }
}

fn refuse_int8(name: &str, layer: &Layer) -> (result: Result<(), Error>)
    ensures
        match int8_refusal(name@, *layer) {
            None => result is Ok,
            Some(words) => result matches Err(error) && error.says(words),
        },
{
    if !layer.scaled {
        let mut message = String::from_str("missing tensor ");
        message.append(name);
        message.append(".weight_scale");
        proof {
            assert(message@ =~= missing_tensor(name@ + ".weight_scale"@));
        }
        return Err(Error::Model(message));
    }
    if layer.dtype != DType::I8 || layer.features % CONVROT_GROUP != 0 || layer.bias {
        return Err(about(name, ": unsupported INT8 layer"));
    }
    Ok(())
}

/// The launches of the INT8 ConvRot layer `layer`, named `name`: with `quantized`, on rows whose rotated
/// INT8 values and scales already sit in the quantization buffers, and with `swiglu`, for weights whose
/// rows are interleaved, into `silu(gate) · up`.
pub fn int8_linear(
    name: &str,
    layer: &Layer,
    rows: usize,
    adapter: Option<LowRank>,
    quantized: bool,
    swiglu: bool,
) -> (steps: Result<Vec<LinearStep>, Error>)
    ensures
        plan::agrees(steps, int8_steps(name@, *layer, rows, adapter, quantized, swiglu)),
{
    refuse_int8(name, layer)?;
    let (mut down, part) = adapter_down(name, adapter, rows)?;
    let mut steps: Vec<LinearStep> = Vec::new();
    if !quantized {
        steps.push(LinearStep::RotateQuantize { rows, features: layer.features });
    }
    let ghost head = steps@;
    let ghost middle = down@;
    steps.append(&mut down);
    steps.push(
        LinearStep::Int8 {
            config: gemm::int8_config(rows, layer.outputs, layer.features),
            rows,
            first: 0,
            outputs: layer.outputs,
            features: layer.features,
            stride: 0,
            swiglu,
            adapter: part,
        },
    );
    proof {
        let expected = int8_steps(name@, *layer, rows, adapter, quantized, swiglu)->Ok_0;
        assert(quantized ==> head =~= Seq::empty());
        assert(!quantized ==> head =~= seq![LinearStep::RotateQuantize { rows, features: layer.features }]);
        assert(steps@ =~= expected);
    }
    Ok(steps)
}

/// The launches of an INT8 ConvRot layer on rows that are already quantized.
pub open spec fn quantized_steps(
    name: Seq<char>,
    layer: Option<Layer>,
    rows: usize,
    adapter: Option<LowRank>,
    swiglu: bool,
) -> Result<Seq<LinearStep>, Seq<char>> {
    match layer {
        None => Err(missing_tensor(name + ".weight"@)),
        Some(layer) => int8_steps(name, layer, rows, adapter, true, swiglu),
    }
}

/// The launches of the INT8 ConvRot layer `layer`, named `name`, on rows whose rotated INT8 values and
/// scales already sit in the quantization buffers.
pub fn linear_quantized(
    name: &str,
    layer: Option<Layer>,
    rows: usize,
    adapter: Option<LowRank>,
    swiglu: bool,
) -> (steps: Result<Vec<LinearStep>, Error>)
    ensures
        plan::agrees(steps, quantized_steps(name@, layer, rows, adapter, swiglu)),
{
    match layer {
        None => {
            let mut message = String::from_str("missing tensor ");
            message.append(name);
            message.append(".weight");
            proof {
                assert(message@ =~= missing_tensor(name@ + ".weight"@));
            }
            Err(Error::Model(message))
        },
        Some(layer) => int8_linear(name, &layer, rows, adapter, true, swiglu),
    }
}

/// The launches of the layer `layer`, named `name`, on `rows` rows.
pub fn linear(name: &str, layer: Option<Layer>, rows: usize, adapter: Option<LowRank>) -> (steps: Result<
    Vec<LinearStep>,
    Error,
>)
    ensures
        plan::agrees(steps, linear_steps(name@, layer, rows, adapter)),
{
    let layer = match layer {
        None => {
            let mut message = String::from_str("missing tensor ");
            message.append(name);
            message.append(".weight");
            proof {
                assert(message@ =~= missing_tensor(name@ + ".weight"@));
            }
            return Err(Error::Model(message));
        },
        Some(layer) => layer,
    };
    if layer.dtype == DType::I8 {
        return int8_linear(name, &layer, rows, adapter, false, false);
    }
    if layer.dtype != DType::Bf16 && layer.dtype != DType::F32 {
        let mut message = String::from_str(name);
        message.append(": unsupported weight dtype ");
        message.append(layer.dtype.name());
        return Err(Error::Model(message));
    }
    let kind = if layer.dtype == DType::Bf16 {
        LinearKind::Bf16
    } else {
        LinearKind::F32
    };
    let mut steps: Vec<LinearStep> = Vec::new();
    steps.push(
        LinearStep::Product {
            kind,
            rows,
            outputs: layer.outputs,
            features: layer.features,
            bias: layer.bias,
        },
    );
    if let Some(low) = adapter {
        if low.columns.is_some() {
            return Err(Error::Model(String::from_str("a quantized down projection needs an INT8 layer")));
        }
        steps.push(LinearStep::Down { rows, rank: low.rank, inputs: low.inputs });
        steps.push(LinearStep::Up { rows, outputs: low.outputs, rank: low.rank });
    }
    proof {
        let expected = linear_steps(name@, Some(layer), rows, adapter)->Ok_0;
        assert(steps@ =~= expected);
    }
    Ok(steps)
}

/// The launch of the INT8 ConvRot layer `layer` over a range of its output columns, with the rows of the
/// result `stride` elements apart, or why there is none. The weight is `[outputs, features]` and its
/// scales `[outputs]`, so a range of the columns is a range of both, and so is the adapter's up
/// projection, `[outputs, rank]`.
pub open spec fn range_step(
    name: Seq<char>,
    layer: Option<Layer>,
    rows: usize,
    columns: Run,
    stride: usize,
    adapter: Option<AdapterPart>,
) -> Result<LinearStep, Seq<char>> {
    match layer {
        None => Err(missing_tensor(name + ".weight"@)),
        Some(layer) => match int8_refusal(name, layer) {
            Some(refusal) => Err(refusal),
            None => if columns.end > layer.outputs {
                Err(
                    name + ": columns "@ + text::decimal(columns.start as nat) + ".."@ + text::decimal(
                        columns.end as nat,
                    ) + " of "@ + text::decimal(layer.outputs as nat),
                )
            } else {
                Ok(
                    LinearStep::Int8 {
                        config: gemm::tile_config(
                            rows as int,
                            columns.size(),
                            layer.features as int,
                        ) as usize,
                        rows,
                        first: columns.start,
                        outputs: columns.size() as usize,
                        features: layer.features,
                        stride,
                        swiglu: false,
                        adapter,
                    },
                )
            },
        },
    }
}

/// The launch of an INT8 ConvRot layer over a range of its output columns.
pub fn linear_quantized_range(
    name: &str,
    layer: Option<Layer>,
    rows: usize,
    columns: Run,
    stride: usize,
    adapter: Option<AdapterPart>,
) -> (step: Result<LinearStep, Error>)
    ensures
        match range_step(name@, layer, rows, columns, stride, adapter) {
            Ok(expected) => step matches Ok(step) && step == expected,
            Err(words) => step matches Err(error) && error.says(words),
        },
{
    let layer = match layer {
        None => {
            let mut message = String::from_str("missing tensor ");
            message.append(name);
            message.append(".weight");
            proof {
                assert(message@ =~= missing_tensor(name@ + ".weight"@));
            }
            return Err(Error::Model(message));
        },
        Some(layer) => layer,
    };
    refuse_int8(name, &layer)?;
    if columns.end > layer.outputs {
        let mut message = String::from_str(name);
        message.append(": columns ");
        text::push_size(&mut message, columns.start);
        message.append("..");
        text::push_size(&mut message, columns.end);
        message.append(" of ");
        text::push_size(&mut message, layer.outputs);
        return Err(Error::Model(message));
    }
    Ok(
        LinearStep::Int8 {
            config: gemm::int8_config(rows, columns.len(), layer.features),
            rows,
            first: columns.start,
            outputs: columns.len(),
            features: layer.features,
            stride,
            swiglu: false,
            adapter,
        },
    )
}

/// Bytes of the buffers a linear layer runs through.
#[derive(Clone, Copy, Debug, PartialEq, Eq, Structural)]
pub struct LinearBuffers {
    pub input: usize,
    pub output: usize,
    pub quantized: usize,
    pub scales: usize,
    pub adapter: usize,
}

/// Whether the buffers hold `rows` rows of what the layer and its adapter read and write.
pub open spec fn hold_rows(buffers: LinearBuffers, layer: Layer, rows: int, adapter: Option<LowRank>) -> bool {
    let width = if layer.dtype == DType::F32 {
        4int
    } else {
        2int
    };
    &&& buffers.input >= rows * layer.features * width
    &&& buffers.output >= rows * layer.outputs * width
    &&& layer.dtype == DType::I8 ==> buffers.quantized >= rows * layer.features && buffers.scales >= rows * 4
    &&& adapter matches Some(low) ==> {
        &&& buffers.adapter >= rows * low.scratch() * 2
        &&& low.inputs == layer.features
        &&& low.outputs == layer.outputs
        &&& low.columns matches Some(columns) ==> low.rank <= columns
    }
}

/// Whether a launch stays inside the buffers it reads and writes.
pub open spec fn stays_inside(step: LinearStep, layer: Layer, buffers: LinearBuffers) -> bool {
    match step {
        LinearStep::RotateQuantize { rows, features } => {
            &&& rows * features * 2 <= buffers.input
            &&& rows * features <= buffers.quantized
            &&& rows * 4 <= buffers.scales
        },
        LinearStep::QuantizedDown { config, rows, columns, inputs } => {
            &&& rows * inputs <= buffers.quantized
            &&& rows * 4 <= buffers.scales
            &&& rows * columns * 2 <= buffers.adapter
        },
        LinearStep::Int8 { config, rows, first, outputs, features, stride, swiglu, adapter } => {
            &&& rows * features <= buffers.quantized
            &&& rows * 4 <= buffers.scales
            &&& first + outputs <= layer.outputs
            &&& rows * (if swiglu {
                outputs / 2
            } else {
                outputs
            }) * 2 <= buffers.output
            &&& adapter matches Some(part) ==> part.rank <= part.stride && rows * part.stride * 2 <= buffers.adapter
        },
        LinearStep::Product { kind, rows, outputs, features, bias } => {
            let width = if kind == LinearKind::F32 {
                4int
            } else {
                2int
            };
            &&& rows * features * width <= buffers.input
            &&& rows * outputs * width <= buffers.output
        },
        LinearStep::Down { rows, rank, inputs } => {
            &&& rows * inputs * 2 <= buffers.input
            &&& rows * rank * 2 <= buffers.adapter
        },
        LinearStep::Up { rows, outputs, rank } => {
            &&& rows * rank * 2 <= buffers.adapter
            &&& rows * outputs * 2 <= buffers.output
        },
    }
}

/// Every launch of a linear layer stays inside the buffers it reads and writes, where they hold its rows.
pub proof fn a_linear_layer_stays_in_its_buffers(
    name: Seq<char>,
    layer: Layer,
    rows: usize,
    adapter: Option<LowRank>,
    buffers: LinearBuffers,
    step: int,
)
    requires
        hold_rows(buffers, layer, rows as int, adapter),
        linear_steps(name, Some(layer), rows, adapter) is Ok,
        0 <= step < linear_steps(name, Some(layer), rows, adapter)->Ok_0.len(),
    ensures
        stays_inside(linear_steps(name, Some(layer), rows, adapter)->Ok_0[step], layer, buffers),
{
    arithmetic::products_grow(rows as int, layer.features as int, rows as int, layer.features as int);
    arithmetic::products_grow(rows as int, layer.outputs as int, rows as int, layer.outputs as int);
}

/// What a checkpoint says of the quantization of a layer.
pub enum Quantization {
    /// Bytes that are no text.
    NotText,
    /// A text that does not parse, and why.
    Unreadable(String),
    /// A text and what it says under `format`, `convrot` and `convrot_groupsize`.
    Read { text: String, format: Option<String>, convrot: Option<bool>, group: Option<u64> },
}

/// Whether the quantization is the one the INT8 layers have: INT8 with ConvRot in groups of 256.
pub open spec fn is_convrot(format: Option<String>, convrot: Option<bool>, group: Option<u64>) -> bool {
    &&& format matches Some(format) && format@ == "int8_tensorwise"@
    &&& convrot == Some(true)
    &&& group == Some(CONVROT_GROUP as u64)
}

/// What is said of a quantization other than the INT8 layers'.
pub open spec fn quantization_refusal(name: Seq<char>, quantization: Quantization) -> Option<Seq<char>> {
    match quantization {
        Quantization::NotText => Some(name + " is not UTF-8"@),
        Quantization::Unreadable(reason) => Some(name + ": "@ + reason@),
        Quantization::Read { text, format, convrot, group } => if is_convrot(format, convrot, group) {
            None
        } else {
            Some(name + ": unsupported quantization "@ + text@)
        },
    }
}

/// Refuses a quantization other than the INT8 layers'.
pub fn check_quantization(name: &str, quantization: &Quantization) -> (result: Result<(), Error>)
    ensures
        match quantization_refusal(name@, *quantization) {
            None => result is Ok,
            Some(words) => result matches Err(error) && error.says(words),
        },
{
    match quantization {
        Quantization::NotText => Err(about(name, " is not UTF-8")),
        Quantization::Unreadable(reason) => {
            let mut message = String::from_str(name);
            message.append(": ");
            message.append(reason.as_str());
            Err(Error::Model(message))
        },
        Quantization::Read { text, format, convrot, group } => {
            let formatted = match format {
                Some(format) => *format == String::from_str("int8_tensorwise"),
                None => false,
            };
            let rotated = match convrot {
                Some(convrot) => *convrot,
                None => false,
            };
            let grouped = match group {
                Some(group) => *group == 256,
                None => false,
            };
            if formatted && rotated && grouped {
                Ok(())
            } else {
                let mut message = String::from_str(name);
                message.append(": unsupported quantization ");
                message.append(text.as_str());
                Err(Error::Model(message))
            }
        },
    }
}

impl DeviceTensors {
    /// What the table says of the layer named `name`, unless it has no weight.
    pub open spec fn layer_of(self, name: Seq<char>) -> Option<Layer> {
        match self.find(name + ".weight"@) {
            None => None,
            Some(weight) => Some(
                Layer {
                    dtype: weight.dtype,
                    outputs: weight.shape@[0],
                    features: weight.shape@[1],
                    scaled: self.find(name + ".weight_scale"@) is Some,
                    bias: self.find(name + ".bias"@) is Some,
                },
            ),
        }
    }

    /// What the table says of the layer named `name`, unless it has no weight.
    pub fn layer(&self, name: &str) -> (layer: Option<Layer>)
        requires
            self.valid(),
            self.find(name@ + ".weight"@) matches Some(weight) ==> weight.shape@.len() >= 2,
        ensures
            layer == self.layer_of(name@),
    {
        let mut weight_name = String::from_str(name);
        weight_name.append(".weight");
        let mut scale_name = String::from_str(name);
        scale_name.append(".weight_scale");
        let mut bias_name = String::from_str(name);
        bias_name.append(".bias");
        match self.optional(weight_name.as_str()) {
            None => None,
            Some(weight) => Some(
                Layer {
                    dtype: weight.dtype,
                    outputs: weight.shape[0],
                    features: weight.shape[1],
                    scaled: self.optional(scale_name.as_str()).is_some(),
                    bias: self.optional(bias_name.as_str()).is_some(),
                },
            ),
        }
    }
}

} // verus!
