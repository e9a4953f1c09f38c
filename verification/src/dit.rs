//! One DiT call on the GPU for text-to-video with audio.
//!
//! The residual stream stays in FP32. Linear layers take BF16 inputs and run through the INT8
//! ConvRot GEMM for quantized weights and through cuBLASLt for BF16 and FP32 weights.
use crate::attention::{AttentionPrecision, HEAD_DIM};
use crate::block::{Block, Linear, Part};
use crate::checkpoint;
use crate::checkpoint::TensorInfo;
use crate::model;
use crate::model::{DType, DeviceTensors, Error, LowRank, Quantization};
use crate::named::Named;
use crate::nvfp4::{Columns, Nvfp4Scale, Nvfp4Weight, ScaleSlots};
use crate::text;
use crate::workspace::DitConfig;
use vstd::prelude::*;

verus! {

/// What the table of a checkpoint's tensors makes of one of them.
pub enum Loaded {
    /// It is none of the model's.
    Skipped,
    /// It says how a layer is quantized.
    Quantization(String),
    /// It goes to the device under this name.
    Uploaded(String),
}

/// What is made of a checkpoint tensor, by its name.
pub ghost enum LoadedPart {
    Skipped,
    Quantization(Seq<char>),
    Uploaded(Seq<char>),
}

impl View for Loaded {
    type V = LoadedPart;

    open spec fn view(&self) -> LoadedPart {
        match self {
            Loaded::Skipped => LoadedPart::Skipped,
            Loaded::Quantization(name) => LoadedPart::Quantization(name@),
            Loaded::Uploaded(name) => LoadedPart::Uploaded(name@),
        }
    }
}

/// What is made of the checkpoint tensor `name`, where every name of the model starts with `prefix`. The
/// time table and the rotation frequencies stay on the host.
pub open spec fn loaded_part(name: Seq<char>, prefix: Seq<char>) -> LoadedPart {
    match text::behind(name, prefix) {
        None => LoadedPart::Skipped,
        Some(rest) => if text::ends(rest, ".comfy_quant"@) {
            LoadedPart::Quantization(rest)
        } else if rest == "adaln_t_table"@ || rest == "rope.inv_freq"@ {
            LoadedPart::Skipped
        } else {
            LoadedPart::Uploaded(rest)
        },
    }
}

/// What is made of the checkpoint tensor `name`.
pub fn loaded(name: &str, prefix: &str) -> (loaded: Loaded)
    ensures
        loaded@ == loaded_part(name@, prefix@),
{
    match text::without_start(name, prefix) {
        None => Loaded::Skipped,
        Some(rest) => {
            if text::ends_with(rest.as_str(), ".comfy_quant") {
                Loaded::Quantization(rest)
            } else if rest == String::from_str("adaln_t_table") || rest == String::from_str("rope.inv_freq") {
                Loaded::Skipped
            } else {
                Loaded::Uploaded(rest)
            }
        },
    }
}

/// What is said of a DiT whose heads are not of the size the attention kernels take.
pub open spec fn heads_refusal(config: DitConfig) -> Option<Seq<char>> {
    if config.head_dim == HEAD_DIM {
        None
    } else {
        Some("head dimension "@ + text::decimal(config.head_dim as nat) + " is not "@ + text::decimal(HEAD_DIM as nat))
    }
}

/// Refuses a DiT whose heads are not of the size the attention kernels take.
pub fn check_heads(config: &DitConfig) -> (result: Result<(), Error>)
    ensures
        match heads_refusal(*config) {
            None => result is Ok,
            Some(words) => result matches Err(error) && error.says(words),
        },
{
    if config.head_dim == HEAD_DIM {
        return Ok(());
    }
    let mut message = String::from_str("head dimension ");
    text::push_size(&mut message, config.head_dim);
    message.append(" is not ");
    text::push_size(&mut message, HEAD_DIM);
    Err(Error::Model(message))
}

/// What is made of the tensors of a file by their places, where the quantization of every layer is the one that the
/// INT8 layers have.
pub open spec fn loaded_row(
    file: Seq<TensorInfo>,
    prefix: Seq<char>,
    quantizations: Seq<Option<Quantization>>,
) -> spec_fn(int) -> Result<LoadedPart, Seq<char>> {
    |place: int|
        match loaded_part(file[place].name@, prefix) {
            LoadedPart::Quantization(name) => match model::quantization_refusal(name, quantizations[place]->0) {
                Some(words) => Err(words),
                None => Ok(LoadedPart::Quantization(name)),
            },
            part => Ok(part),
        }
}

/// What is made of tensors.
pub open spec fn loaded_parts(list: Seq<Loaded>) -> Seq<LoadedPart> {
    Seq::new(list.len(), |i: int| list[i]@)
}

/// The name of a main block.
pub open spec fn block_prefix(layer: nat) -> Seq<char> {
    "blocks."@ + text::decimal(layer)
}

/// The name of a main block.
pub fn prefix_of(layer: usize) -> (prefix: String)
    ensures
        prefix@ == block_prefix(layer as nat),
{
    let mut prefix = String::from_str("blocks.");
    text::push_size(&mut prefix, layer);
    prefix
}

/// How a LoRA reaches the INT8 ConvRot layers.
#[derive(Clone, Copy, Debug, PartialEq, Eq, Structural)]
pub enum LoraMode {
    /// An adapter next to the INT8 weights with its own work in every call. Its down projection
    /// runs on the quantized input of the layer, and the rest in BF16.
    Adapter,
    /// Added into the weights, which are quantized again, like ComfyUI's merge into INT8
    /// checkpoints. No work per call, but updates smaller than half an INT8 step round away.
    Merge,
}

impl Default for LoraMode {
    fn default() -> (mode: LoraMode)
        ensures
            mode == LoraMode::Adapter,
    {
        LoraMode::Adapter
    }
}

/// What a table holds under a name.
pub open spec fn entry<T>(table: Map<Seq<char>, T>, name: Seq<char>) -> Option<T> {
    if table.dom().contains(name) {
        Some(table[name])
    } else {
        None
    }
}

/// A DiT whose weights are on the device.
pub struct CudaDit {
    pub attention_precision: AttentionPrecision,
    pub config: DitConfig,
    pub tensors: DeviceTensors,
    /// Low-rank adapters by layer name.
    pub adapters: Named<LowRank>,
    /// NVFP4 versions of block linear layers by name, with their adapters, which run the video
    /// rows in place of the INT8 weights.
    pub nvfp4: Named<Nvfp4Weight>,
    /// Tensor scale histories of the NVFP4 layers' inputs, by layer. A VSA gate shares the input of
    /// its block's qkv projection.
    pub histories: Named<Nvfp4Scale>,
    /// Whether the text states that a call refined with these weights are kept.
    pub text_kept: bool,
}

impl CudaDit {
    /// What is made of each tensor of a file, in the order of the file, or why the model cannot be loaded. What a tensor
    /// says of a quantization is in `quantizations`, at the place of the tensor.
    pub fn load(
        file: &Vec<TensorInfo>,
        prefix: &str,
        config: &DitConfig,
        quantizations: &Vec<Option<Quantization>>,
    ) -> (list: Result<Vec<Loaded>, Error>)
        requires
            quantizations@.len() == file@.len(),
            forall|i: int|
                0 <= i < file@.len() ==> (loaded_part((#[trigger] file@[i]).name@, prefix@) is Quantization
                    ==> quantizations@[i] is Some),
        ensures
            match heads_refusal(*config) {
                Some(words) => list matches Err(error) && error.says(words),
                None => match checkpoint::all_of(
                    loaded_row(file@, prefix@, quantizations@),
                    file@.len() as int,
                ) {
                    Ok(parts) => list matches Ok(list) && loaded_parts(list@) == parts,
                    Err(words) => list matches Err(error) && error.says(words),
                },
            },
    {
        check_heads(config)?;
        let ghost row = loaded_row(file@, prefix@, quantizations@);
        let mut list: Vec<Loaded> = Vec::new();
        assert(loaded_parts(list@) =~= Seq::<LoadedPart>::empty());
        let count: usize = file.len();
        for place in 0..count
            invariant
                count == file@.len(),
                quantizations@.len() == file@.len(),
                heads_refusal(*config) is None,
                row == loaded_row(file@, prefix@, quantizations@),
                forall|i: int|
                    0 <= i < file@.len() ==> (loaded_part((#[trigger] file@[i]).name@, prefix@) is Quantization
                        ==> quantizations@[i] is Some),
                checkpoint::all_of(row, place as int) == Ok::<Seq<LoadedPart>, Seq<char>>(loaded_parts(list@)),
        {
            let part = loaded(file[place].name.as_str(), prefix);
            assert(loaded_part(file@[place as int].name@, prefix@) == part@);
            if let Loaded::Quantization(name) = &part {
                if let Some(quantization) = &quantizations[place] {
                    if let Err(error) = model::check_quantization(name.as_str(), quantization) {
                        proof {
                            checkpoint::a_refusal_stays(row, place + 1, count as int);
                        }
                        return Err(error);
                    }
                }
            }
            let ghost before = list@;
            list.push(part);
            assert(loaded_parts(list@) =~= loaded_parts(before).push(part@));
        }
        Ok(list)
    }
}

impl CudaDit {
    pub open spec fn valid(self) -> bool {
        &&& self.tensors.valid()
        &&& self.adapters.valid()
        &&& self.nvfp4.valid()
        &&& self.histories.valid()
    }

    pub fn new(config: DitConfig, tensors: DeviceTensors) -> (dit: CudaDit)
        requires
            tensors.valid(),
        ensures
            dit.valid(),
            dit.config == config,
            dit.tensors == tensors,
            dit.attention_precision == AttentionPrecision::Bf16,
            dit.adapters@ == Map::<Seq<char>, LowRank>::empty(),
            dit.nvfp4@ == Map::<Seq<char>, Nvfp4Weight>::empty(),
            dit.histories@ == Map::<Seq<char>, Nvfp4Scale>::empty(),
            !dit.text_kept,
    {
        CudaDit {
            attention_precision: AttentionPrecision::Bf16,
            config,
            tensors,
            adapters: Named::new(),
            nvfp4: Named::new(),
            histories: Named::new(),
            text_kept: false,
        }
    }

    /// Keeps the text states that a call refined, for the calls to come.
    pub fn keep_text(&mut self)
        ensures
            *final(self) == (CudaDit { text_kept: true, ..*old(self) }),
    {
        self.text_kept = true;
    }

    /// Whether refined text states are kept: not before the first call, nor behind a LoRA.
    pub fn keeps_text(&self) -> (kept: bool)
        ensures
            kept == self.text_kept,
    {
        self.text_kept
    }

    /// The tensors whose rows are put in the order of the INT8 GEMM's SwiGLU output once they are loaded.
    pub fn interleaved(&self) -> (names: Result<Vec<String>, Error>)
        requires
            self.tensors.valid(),
        ensures
            match model::interleaved_layers(
                self.tensors,
                "blocks."@,
                ".mlp.fc1"@,
                false,
                self.config.layers as int,
            ) {
                Ok(list) => names matches Ok(names) && model::letters(names@) == list,
                Err(words) => names matches Err(error) && error.says(words),
            },
    {
        self.tensors.interleaved("blocks.", self.config.layers, ".mlp.fc1", false)
    }

    pub fn attention_precision(&self) -> (precision: AttentionPrecision)
        ensures
            precision == self.attention_precision,
    {
        self.attention_precision
    }

    /// Selects quantized attention for the main DiT blocks. The text refiner stays in BF16.
    pub fn set_attention_precision(&mut self, precision: AttentionPrecision)
        ensures
            final(self).attention_precision == precision,
            final(self).config == old(self).config,
            final(self).tensors == old(self).tensors,
            final(self).adapters == old(self).adapters,
            final(self).nvfp4 == old(self).nvfp4,
            final(self).histories == old(self).histories,
            final(self).text_kept == old(self).text_kept,
    {
        self.attention_precision = precision;
    }

    pub fn config(&self) -> (config: &DitConfig)
        ensures
            *config == self.config,
    {
        &self.config
    }

    /// Whether the blocks carry the gates of VSA's coarse branch, which VSA-trained checkpoints
    /// such as FastH3 have.
    pub fn has_vsa_gates(&self) -> (gates: bool)
        requires
            self.valid(),
        ensures
            gates == (self.tensors.find("blocks.0.attn.to_gate_compress.weight"@) is Some),
    {
        self.tensors.optional("blocks.0.attn.to_gate_compress.weight").is_some()
    }

    /// Whether the weight of a layer has its outputs and inputs, where there is one.
    pub open spec fn is_matrix(self, name: Seq<char>) -> bool {
        self.tensors.find(name + ".weight"@) matches Some(weight) ==> weight.shape@.len() >= 2
    }

    /// What is known of the layer named `name`.
    pub open spec fn linear_of(self, name: Seq<char>) -> Linear {
        Linear {
            layer: self.tensors.layer_of(name),
            adapter: entry(self.adapters@, name),
            nvfp4: entry(self.nvfp4@, name),
            history: self.histories@.dom().contains(name),
        }
    }

    fn linear(&self, name: &str) -> (linear: Linear)
        requires
            self.valid(),
            self.is_matrix(name@),
        ensures
            linear == self.linear_of(name@),
    {
        Linear {
            layer: self.tensors.layer(name),
            adapter: self.adapters.get(name),
            nvfp4: self.nvfp4.get(name),
            history: self.histories.contains(name),
        }
    }

    fn has_tensor(&self, prefix: &str, rest: &str) -> (found: bool)
        requires
            self.valid(),
        ensures
            found == (self.tensors.find(prefix@ + rest@) is Some),
    {
        let mut name = String::from_str(prefix);
        name.append(rest);
        self.tensors.optional(name.as_str()).is_some()
    }

    fn part(&self, prefix: &str, part: Part) -> (linear: Linear)
        requires
            self.valid(),
            self.is_matrix(prefix@ + part.letters()),
        ensures
            linear == self.linear_of(prefix@ + part.letters()),
    {
        let mut name = String::from_str(prefix);
        name.append(part.suffix());
        self.linear(name.as_str())
    }

    /// Whether the layers of a block have their outputs and inputs.
    pub open spec fn has_matrices(self, prefix: Seq<char>) -> bool {
        forall|part: Part| self.is_matrix(prefix + #[trigger] part.letters())
    }

    /// Whether `block` is what is known of the block named `prefix`.
    pub open spec fn describes(self, prefix: Seq<char>, block: Block) -> bool {
        &&& block.prefix@ == prefix
        &&& block.norm1 == (self.tensors.find(prefix + ".norm1.weight"@) is Some)
        &&& block.norm2 == (self.tensors.find(prefix + ".norm2.weight"@) is Some)
        &&& block.query_norm == (self.tensors.find(prefix + ".attn.q_norm.weight"@) is Some)
        &&& block.key_norm == (self.tensors.find(prefix + ".attn.k_norm.weight"@) is Some)
        &&& forall|part: Part| block.linear_of(part) == self.linear_of(prefix + #[trigger] part.letters())
    }

    /// What is known of the block named `prefix`.
    pub fn block(&self, prefix: &str) -> (block: Block)
        requires
            self.valid(),
            self.has_matrices(prefix@),
        ensures
            self.describes(prefix@, block),
    {
        assert(self.is_matrix(prefix@ + Part::Qkv.letters()));
        assert(self.is_matrix(prefix@ + Part::Gate.letters()));
        assert(self.is_matrix(prefix@ + Part::Out.letters()));
        assert(self.is_matrix(prefix@ + Part::Fc1.letters()));
        assert(self.is_matrix(prefix@ + Part::Fc2.letters()));
        Block {
            prefix: String::from_str(prefix),
            norm1: self.has_tensor(prefix, ".norm1.weight"),
            norm2: self.has_tensor(prefix, ".norm2.weight"),
            query_norm: self.has_tensor(prefix, ".attn.q_norm.weight"),
            key_norm: self.has_tensor(prefix, ".attn.k_norm.weight"),
            qkv: self.part(prefix, Part::Qkv),
            gate: self.part(prefix, Part::Gate),
            out: self.part(prefix, Part::Out),
            fc1: self.part(prefix, Part::Fc1),
            fc2: self.part(prefix, Part::Fc2),
        }
    }

    /// What is known of a main block.
    pub fn main_block(&self, layer: usize) -> (block: Block)
        requires
            self.valid(),
            self.has_matrices(block_prefix(layer as nat)),
        ensures
            self.describes(block_prefix(layer as nat), block),
    {
        let prefix = prefix_of(layer);
        self.block(prefix.as_str())
    }

    /// Where the next call of an NVFP4 layer's input reads and writes its largest magnitudes, if the layer
    /// has a history.
    pub fn next_call(&mut self, layer: &str) -> (slots: Option<ScaleSlots>)
        requires
            old(self).valid(),
            entry(old(self).histories@, layer@) matches Some(history) ==> history.calls() < u64::MAX,
        ensures
            final(self).valid(),
            final(self).config == old(self).config,
            final(self).attention_precision == old(self).attention_precision,
            final(self).tensors == old(self).tensors,
            final(self).adapters == old(self).adapters,
            final(self).nvfp4 == old(self).nvfp4,
            final(self).text_kept == old(self).text_kept,
            match entry(old(self).histories@, layer@) {
                None => slots is None && final(self).histories@ == old(self).histories@,
                Some(history) => {
                    &&& slots == Some(Nvfp4Scale::slots(history.calls()))
                    &&& final(self).histories@.dom() == old(self).histories@.dom()
                    &&& final(self).histories@[layer@].calls() == history.calls() + 1
                    &&& forall|other: Seq<char>|
                        other != layer@ ==> #[trigger] entry(final(self).histories@, other) == entry(
                            old(self).histories@,
                            other,
                        )
                },
            },
    {
        match self.histories.get(layer) {
            None => None,
            Some(history) => {
                let mut history = history;
                let slots = history.next_call();
                self.histories.insert(String::from_str(layer), history);
                assert(self.histories@.dom() =~= old(self).histories@.dom());
                Some(slots)
            },
        }
    }
}

/// The launch of an AdaLN projection.
#[derive(Clone, Copy, Debug, PartialEq, Eq, Structural)]
pub struct ModulationLaunch {
    /// Rows of time embeddings.
    pub steps: usize,
    pub rank: usize,
    pub outputs: usize,
}

/// The parts of a block in the order they are converted.
pub open spec fn part_at(place: int) -> Part {
    if place == 0 {
        Part::Qkv
    } else if place == 1 {
        Part::Gate
    } else if place == 2 {
        Part::Out
    } else if place == 3 {
        Part::Fc1
    } else {
        Part::Fc2
    }
}

/// Parts of a block.
pub const PARTS: usize = 5;

/// What becomes of a layer in a switch to NVFP4.
pub ghost enum Turn {
    Kept,
    Refused(Seq<char>),
    Converted(Columns),
}

/// A layer to requantize, and what comes of it.
pub struct Conversion {
    pub name: String,
    pub part: Part,
    pub weight: Nvfp4Weight,
}

impl CudaDit {
    /// The launch of the AdaLN projection `name`, or why there is none.
    pub fn modulation(&self, name: &str, steps: usize) -> (launch: Result<ModulationLaunch, Error>)
        requires
            self.valid(),
            self.is_matrix(name@),
        ensures
            match self.tensors.layer_of(name@) {
                None => launch matches Err(error) && error.says(model::missing_tensor(name@ + ".weight"@)),
                Some(layer) => if layer.dtype != DType::F16 {
                    launch matches Err(error) && error.says(
                        name@ + ": AdaLN weights must be F16 in pruned checkpoints"@,
                    )
                } else if !layer.bias {
                    launch matches Err(error) && error.says(model::missing_tensor(name@ + ".bias"@))
                } else {
                    launch == Ok::<ModulationLaunch, Error>(
                        ModulationLaunch { steps, rank: layer.features, outputs: layer.outputs },
                    )
                },
            },
    {
        match self.tensors.layer(name) {
            None => {
                let mut message = String::from_str("missing tensor ");
                message.append(name);
                message.append(".weight");
                assert(message@ =~= model::missing_tensor(name@ + ".weight"@));
                Err(Error::Model(message))
            },
            Some(layer) => {
                if layer.dtype != DType::F16 {
                    let mut message = String::from_str(name);
                    message.append(": AdaLN weights must be F16 in pruned checkpoints");
                    return Err(Error::Model(message));
                }
                if !layer.bias {
                    let mut message = String::from_str("missing tensor ");
                    message.append(name);
                    message.append(".bias");
                    assert(message@ =~= model::missing_tensor(name@ + ".bias"@));
                    return Err(Error::Model(message));
                }
                Ok(ModulationLaunch { steps, rank: layer.features, outputs: layer.outputs })
            },
        }
    }

    pub open spec fn part_name(layer: nat, part: Part) -> Seq<char> {
        block_prefix(layer) + part.letters()
    }

    /// What becomes of a layer in a switch to NVFP4. A gate takes the activations of its block's qkv
    /// projection, so it changes only together with it.
    pub open spec fn turn(self, layer: nat, part: Part) -> Turn {
        let name = CudaDit::part_name(layer, part);
        let qkv = CudaDit::part_name(layer, Part::Qkv);
        let linear = self.linear_of(name);
        if !linear.int8() || linear.nvfp4 is Some || (part == Part::Gate && !self.nvfp4@.dom().contains(qkv)) {
            Turn::Kept
        } else if part == Part::Gate && linear.adapter is Some {
            Turn::Refused(name + ": NVFP4 VSA gates do not take LoRAs"@)
        } else if linear.keeps_input() {
            Turn::Refused(name + ": the adapter has no quantized down projection"@)
        } else if !linear.layer->0.scaled {
            Turn::Refused(model::missing_tensor(name + ".weight_scale"@))
        } else {
            Turn::Converted(
                match linear.adapter {
                    Some(adapter) => Columns::Adapter(adapter.rank),
                    None => if part == Part::Gate {
                        Columns::Zeros(self.nvfp4@[qkv].columns)
                    } else {
                        Columns::Inputs
                    },
                },
            )
        }
    }

    /// Whether a layer can be requantized, where it is to be.
    pub open spec fn convertible(self, layer: nat, part: Part) -> bool {
        let name = CudaDit::part_name(layer, part);
        &&& self.is_matrix(name)
        &&& self.turn(layer, part) matches Turn::Converted(columns) ==> {
            let weight = self.tensors.find(name + ".weight"@)->0;
            let scales = self.tensors.find(name + ".weight_scale"@)->0;
            let (outputs, features) = (weight.shape@[0], weight.shape@[1]);
            &&& outputs * features <= weight.buffer.size()
            &&& outputs * 4 <= scales.buffer.size()
            &&& columns.fit(features as int)
            &&& columns matches Columns::Adapter(rank) ==> features + rank <= usize::MAX
        }
    }

    fn conversion(&self, layer: usize, part: Part) -> (conversion: Result<Option<Conversion>, Error>)
        requires
            self.valid(),
            self.convertible(layer as nat, part),
        ensures
            match self.turn(layer as nat, part) {
                Turn::Kept => conversion matches Ok(None),
                Turn::Refused(words) => conversion matches Err(error) && error.says(words),
                Turn::Converted(columns) => {
                    &&& conversion matches Ok(Some(conversion))
                    &&& self.is_conversion(conversion, layer as nat, part, columns)
                },
            },
    {
        let prefix = prefix_of(layer);
        let mut name = prefix.clone();
        name.append(part.suffix());
        let mut qkv = prefix;
        qkv.append(".attn.qkv_proj");
        let linear = self.linear(name.as_str());
        let is_gate = match part {
            Part::Gate => true,
            _ => false,
        };
        let int8 = match &linear.layer {
            Some(layer) => layer.dtype == DType::I8,
            None => false,
        };
        if !int8 || linear.nvfp4.is_some() || (is_gate && !self.nvfp4.contains(qkv.as_str())) {
            return Ok(None);
        }
        let columns = match &linear.adapter {
            Some(adapter) => {
                if is_gate {
                    name.append(": NVFP4 VSA gates do not take LoRAs");
                    return Err(Error::Model(name));
                }
                if adapter.columns.is_none() {
                    name.append(": the adapter has no quantized down projection");
                    return Err(Error::Model(name));
                }
                Columns::Adapter(adapter.rank)
            },
            None => match self.nvfp4.get(qkv.as_str()) {
                Some(held) if is_gate => Columns::Zeros(held.columns),
                _ => Columns::Inputs,
            },
        };
        let mut weight_name = name.clone();
        weight_name.append(".weight");
        let mut scale_name = name.clone();
        scale_name.append(".weight_scale");
        let weight = self.tensors.get(weight_name.as_str())?;
        let scales = self.tensors.get(scale_name.as_str())?;
        let (outputs, features): (usize, usize) = (weight.shape[0], weight.shape[1]);
        match Nvfp4Weight::from_int8_with(
            weight.buffer.bytes(),
            scales.buffer.bytes(),
            outputs,
            features,
            columns,
        ) {
            Some(weight) => Ok(Some(Conversion { name, part, weight })),
            None => Ok(None),
        }
    }

    /// Whether a conversion is the one of a layer, with these columns behind its inputs.
    pub open spec fn is_conversion(self, conversion: Conversion, layer: nat, part: Part, columns: Columns) -> bool {
        let name = CudaDit::part_name(layer, part);
        let weight = self.tensors.find(name + ".weight"@)->0;
        &&& conversion.name@ == name
        &&& conversion.part == part
        &&& conversion.weight == Nvfp4Weight::of(weight.shape@[0], weight.shape@[1], columns)
        &&& conversion.weight.valid()
    }

    /// The layer at a place among all the parts of all the blocks.
    pub open spec fn turn_at(self, place: int) -> Turn {
        self.turn((place / PARTS as int) as nat, part_at(place % PARTS as int))
    }

    /// Whether the layer at a place can be requantized, where it is to be.
    pub open spec fn convertible_at(self, place: int) -> bool {
        self.convertible((place / PARTS as int) as nat, part_at(place % PARTS as int))
    }

    /// Whether the layers from `place` on can be requantized, where they are to be, up to the first that is not kept.
    pub open spec fn goes_on_from(self, place: int) -> bool {
        forall|at: int|
            place <= at < self.config.layers * PARTS && (forall|before: int|
                place <= before < at ==> (#[trigger] self.turn_at(before)) is Kept) ==> #[trigger] self.convertible_at(at)
    }

    /// The next layer of the main blocks from `place` on to run in NVFP4, requantized from its INT8
    /// ConvRot weights, and the place behind it. The adapters of these layers go into their NVFP4 weights
    /// too, so LoRAs come first. The INT8 weights and adapters stay for the text and audio rows.
    pub fn use_nvfp4(&self, place: usize) -> (next: Result<Option<(usize, Conversion)>, Error>)
        requires
            self.valid(),
            self.config.layers * PARTS <= usize::MAX,
            place <= self.config.layers * PARTS,
            self.goes_on_from(place as int),
        ensures
            match next {
                Ok(None) => forall|at: int|
                    place <= at < self.config.layers * PARTS ==> (#[trigger] self.turn_at(at)) is Kept,
                Ok(Some((after, conversion))) => {
                    &&& place < after <= self.config.layers * PARTS
                    &&& forall|at: int| place <= at < after - 1 ==> (#[trigger] self.turn_at(at)) is Kept
                    &&& self.turn_at(after - 1) matches Turn::Converted(columns)
                    &&& self.is_conversion(
                        conversion,
                        ((after - 1) / PARTS as int) as nat,
                        part_at((after - 1) % PARTS as int),
                        columns,
                    )
                },
                Err(error) => exists|refused: int|
                    place <= refused < self.config.layers * PARTS && (#[trigger] self.turn_at(refused) matches Turn::Refused(
                        words,
                    ) && error.says(words)) && forall|at: int|
                        place <= at < refused ==> (#[trigger] self.turn_at(at)) is Kept,
            },
    {
        let total: usize = self.config.layers * PARTS;
        for at in place..total
            invariant
                self.valid(),
                total == self.config.layers * PARTS,
                place <= total,
                self.goes_on_from(place as int),
                forall|before: int| place <= before < at ==> (#[trigger] self.turn_at(before)) is Kept,
        {
            let layer: usize = at / PARTS;
            let number: usize = at % PARTS;
            let part = match number {
                0 => Part::Qkv,
                1 => Part::Gate,
                2 => Part::Out,
                3 => Part::Fc1,
                _ => Part::Fc2,
            };
            assert(self.turn_at(at as int) == self.turn(layer as nat, part));
            assert(self.convertible_at(at as int));
            match self.conversion(layer, part) {
                Err(error) => {
                    return Err(error);
                },
                Ok(Some(conversion)) => {
                    return Ok(Some((at + 1, conversion)));
                },
                Ok(None) => {},
            }
        }
        Ok(None)
    }

    /// Takes in a converted layer. A gate shares the history of its block's qkv projection.
    pub fn converted(&mut self, conversion: Conversion)
        requires
            old(self).valid(),
        ensures
            final(self).valid(),
            final(self).config == old(self).config,
            final(self).attention_precision == old(self).attention_precision,
            final(self).tensors == old(self).tensors,
            final(self).adapters == old(self).adapters,
            final(self).text_kept == old(self).text_kept,
            final(self).nvfp4@ == old(self).nvfp4@.insert(conversion.name@, conversion.weight),
            if conversion.part == Part::Gate {
                final(self).histories@ == old(self).histories@
            } else {
                exists|history: Nvfp4Scale|
                    history.calls() == 0 && final(self).histories@ == #[trigger] old(self).histories@.insert(
                        conversion.name@,
                        history,
                    )
            },
    {
        let Conversion { name, part, weight } = conversion;
        let is_gate = match part {
            Part::Gate => true,
            _ => false,
        };
        if !is_gate {
            let history = Nvfp4Scale::new();
            self.histories.insert(name.clone(), history);
        }
        self.nvfp4.insert(name, weight);
    }
}

/// A converted layer is not converted again, and no other layer but its block's gate turns differently.
pub proof fn a_converted_layer_stays(before: CudaDit, after: CudaDit, layer: nat, part: Part, weight: Nvfp4Weight)
    requires
        after.tensors == before.tensors,
        after.adapters == before.adapters,
        after.config == before.config,
        after.nvfp4@ == before.nvfp4@.insert(CudaDit::part_name(layer, part), weight),
    ensures
        after.turn(layer, part) is Kept,
        forall|other: nat, name: Part|
            CudaDit::part_name(other, name) != CudaDit::part_name(layer, part) && name != Part::Gate
                ==> #[trigger] after.turn(other, name) == before.turn(other, name),
{
}

} // verus!
