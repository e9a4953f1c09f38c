use mmh3::attention::AttentionPrecision;
use mmh3::block::{Attending, Block, BlockCall, BlockStep, Buffer, Gating, Modulation, Norm, Part, Place, Sparse, Table};
use mmh3::call::CallStep;
use mmh3::checkpoint::TensorInfo;
use mmh3::device::{Allocations, DeviceBuffer};
use mmh3::dit::{self, check_heads, CudaDit, Loaded, LoraMode};
use mmh3::exchange::{self, Phase, ShardStep, SharedCall};
use mmh3::forward::{
    blocks, embeds, sparse_method, Cached, Embed, Extent, Kept, LoopStep, PackedLayout, Projection, RunCall, Segment,
    SegmentKind, SparseAttention, SparseHeld, TextStates, VelocityPart,
};
use mmh3::lora::{self, LoraAction};
use mmh3::model::{DType, DeviceTensor, DeviceTensors, LinearKind, LinearStep, LowRank, Quantization};
use mmh3::nvfp4::{Margin, Nvfp4Activations, Nvfp4Weight};
use mmh3::shard::{Region, Run, Shard};
use mmh3::switch::Switch;
use mmh3::workspace::{DitConfig, Workspace, WorkspaceShape};

const CONFIG: DitConfig = DitConfig {
    layers: 3,
    refiner_layers: 1,
    hidden: 256,
    heads: 2,
    head_dim: 128,
    ffn: 512,
    rope_frequencies: 10,
    video_patch_features: 2,
    audio_channels: 1,
};

fn add(tensors: &mut DeviceTensors, allocations: &mut Allocations, name: String, dtype: DType, shape: &[usize]) {
    let bytes: usize = shape.iter().product::<usize>() * 4;
    let buffer = DeviceBuffer::new(allocations, 0, 0x1000, bytes);
    tensors.insert(DeviceTensor { name, dtype, shape: shape.to_vec(), buffer });
}

/// A model of small blocks whose layers are of one type.
fn model(dtype: DType) -> CudaDit {
    let mut allocations = Allocations::new();
    let mut tensors = DeviceTensors::new();
    for layer in 0..CONFIG.layers {
        let prefix = dit::prefix_of(layer);
        for norm in ["norm1", "norm2", "attn.q_norm", "attn.k_norm"] {
            add(&mut tensors, &mut allocations, format!("{prefix}.{norm}.weight"), DType::Bf16, &[256]);
        }
        for (name, outputs, features) in
            [("attn.qkv_proj", 768, 256), ("attn.out_proj", 256, 256), ("mlp.fc1", 1024, 256), ("mlp.fc2", 256, 512)]
        {
            add(&mut tensors, &mut allocations, format!("{prefix}.{name}.weight"), dtype, &[outputs, features]);
            if dtype == DType::I8 {
                add(&mut tensors, &mut allocations, format!("{prefix}.{name}.weight_scale"), DType::F32, &[outputs]);
            }
        }
    }
    CudaDit::new(CONFIG, tensors)
}

fn add_to(dit: &mut CudaDit, name: &str, dtype: DType, shape: &[usize]) {
    let mut allocations = Allocations::new();
    add(&mut dit.tensors, &mut allocations, name.to_owned(), dtype, shape);
}

#[test]
fn a_checkpoint_names_its_tensors() {
    let named = |name: &str| match dit::loaded(name, "model.") {
        Loaded::Skipped => "-".to_owned(),
        Loaded::Quantization(rest) => format!("quantization {rest}"),
        Loaded::Uploaded(rest) => rest,
    };
    assert_eq!(named("model.blocks.0.mlp.fc1.weight"), "blocks.0.mlp.fc1.weight");
    assert_eq!(named("model.blocks.0.mlp.fc1.comfy_quant"), "quantization blocks.0.mlp.fc1.comfy_quant");
    assert_eq!(named("model.adaln_t_table"), "-");
    assert_eq!(named("model.rope.inv_freq"), "-");
    assert_eq!(named("vae.weight"), "-");
    assert!(check_heads(&CONFIG).is_ok());
    let odd = DitConfig { head_dim: 64, ..CONFIG };
    assert_eq!(check_heads(&odd).unwrap_err().text(), "head dimension 64 is not 128");
}

#[test]
fn a_new_model_attends_in_bf16() {
    let mut dit = model(DType::Bf16);
    assert_eq!(dit.attention_precision(), AttentionPrecision::Bf16);
    dit.set_attention_precision(AttentionPrecision::Int8Fp8);
    assert_eq!(dit.attention_precision(), AttentionPrecision::Int8Fp8);
    assert_eq!(dit.config().hidden, 256);
    assert!(!dit.has_vsa_gates());
    add_to(&mut dit, "blocks.0.attn.to_gate_compress.weight", DType::Bf16, &[256, 256]);
    assert!(dit.has_vsa_gates());
    assert!(dit.interleaved().unwrap().is_empty());
    assert_eq!(model(DType::I8).interleaved().unwrap()[..2], ["blocks.0.mlp.fc1.weight", "blocks.0.mlp.fc1.weight_scale"]);
    assert_eq!(LoraMode::default(), LoraMode::Adapter);
}

#[test]
fn modulation_needs_an_f16_layer_with_a_bias() {
    let mut dit = model(DType::Bf16);
    assert_eq!(dit.modulation("adaln", 2).unwrap_err().text(), "missing tensor adaln.weight");
    add_to(&mut dit, "adaln.weight", DType::Bf16, &[1536, 64]);
    assert_eq!(
        dit.modulation("adaln", 2).unwrap_err().text(),
        "adaln: AdaLN weights must be F16 in pruned checkpoints"
    );
    add_to(&mut dit, "adaln.weight", DType::F16, &[1536, 64]);
    assert_eq!(dit.modulation("adaln", 2).unwrap_err().text(), "missing tensor adaln.bias");
    add_to(&mut dit, "adaln.bias", DType::F16, &[1536]);
    let launch = dit.modulation("adaln", 2).unwrap();
    assert_eq!((launch.steps, launch.rank, launch.outputs), (2, 64, 1536));
}

fn call(tokens: usize) -> BlockCall {
    BlockCall {
        tokens,
        head: 0,
        heads: 2,
        pairs: 30,
        ffn: 512,
        modulated: true,
        pending: false,
        sparse: None,
        quantized: false,
        sharded: false,
        gate: false,
        activations: None,
    }
}

fn at(buffer: Buffer) -> Place {
    Place { buffer, offset: 0 }
}

#[test]
fn a_bf16_block_normalizes_projects_and_attends() {
    let block = model(DType::Bf16).main_block(1);
    assert_eq!(block.name(Part::Fc1), "blocks.1.mlp.fc1");
    let product = |outputs: usize, features: usize| LinearStep::Product {
        kind: LinearKind::Bf16,
        rows: 5,
        outputs,
        features,
        bias: false,
    };
    let pending = BlockCall { pending: true, ..call(5) };
    assert_eq!(
        block.transformer_block(&pending).unwrap(),
        vec![
            BlockStep::AddResidual { rows: 5, gate: Some(Gating { table: Table::Pending, chunk: 5 }) },
            BlockStep::Normalize { norm: Norm::First, rows: 5, modulation: Some(Modulation { shift: 0, scale: 1 }) },
            BlockStep::Linear {
                part: Part::Qkv,
                input: at(Buffer::Normalized),
                output: at(Buffer::Qkv),
                step: product(768, 256),
            },
            BlockStep::QkNormRope { rows: 5, heads: 2, pairs: 30 },
            BlockStep::Attend { attending: Attending::Dense, prepared: false, rows: 5, heads: 2 },
            BlockStep::Linear {
                part: Part::Out,
                input: at(Buffer::Attention),
                output: at(Buffer::Delta),
                step: product(256, 256),
            },
            BlockStep::AddResidual { rows: 5, gate: Some(Gating { table: Table::Own, chunk: 2 }) },
            BlockStep::Normalize { norm: Norm::Second, rows: 5, modulation: Some(Modulation { shift: 3, scale: 4 }) },
            BlockStep::Linear {
                part: Part::Fc1,
                input: at(Buffer::Normalized),
                output: at(Buffer::Expanded),
                step: product(1024, 256),
            },
            BlockStep::SwiGlu { output: at(Buffer::Activated), rows: 5, ffn: 512 },
            BlockStep::Linear {
                part: Part::Fc2,
                input: at(Buffer::Activated),
                output: at(Buffer::Delta),
                step: product(256, 512),
            },
        ]
    );
}

#[test]
fn an_int8_block_quantizes_as_it_normalizes() {
    let block = model(DType::I8).main_block(0);
    let quantized = BlockCall { quantized: true, ..call(5) };
    let steps = block.transformer_block(&quantized).unwrap();
    assert_eq!(
        steps[0],
        BlockStep::AddNormQuantize {
            norm: Norm::First,
            rows: 5,
            gate: None,
            modulation: Modulation { shift: 0, scale: 1 },
            keep: false,
        }
    );
    assert!(steps.contains(&BlockStep::PrepareInputs {
        attending: Attending::DenseQuantized,
        rows: 5,
        heads: 2,
        pairs: 30,
    }));
    assert!(steps.contains(&BlockStep::Attend {
        attending: Attending::DenseQuantized,
        prepared: true,
        rows: 5,
        heads: 2,
    }));
    assert!(!steps.iter().any(|step| matches!(step, BlockStep::SwiGlu { .. })));
    let fused = steps.iter().any(|step| {
        matches!(step, BlockStep::Linear { part: Part::Fc1, step: LinearStep::Int8 { swiglu: true, .. }, .. })
    });
    assert!(fused);
    // Without modulation the MLP runs plainly, and the block adds its output itself.
    let plain = BlockCall { modulated: false, ..call(5) };
    let steps = block.transformer_block(&plain).unwrap();
    assert!(steps.contains(&BlockStep::SwiGlu { output: at(Buffer::Activated), rows: 5, ffn: 512 }));
    assert_eq!(steps.last().unwrap(), &BlockStep::AddResidual { rows: 5, gate: None });
}

#[test]
fn a_block_says_what_it_misses() {
    let dit = model(DType::Bf16);
    let text = |block: &Block| block.transformer_block(&call(5)).unwrap_err().text();
    let complete = || dit.main_block(0);
    assert_eq!(text(&Block { norm1: false, ..complete() }), "missing tensor blocks.0.norm1.weight");
    assert_eq!(text(&Block { norm2: false, ..complete() }), "missing tensor blocks.0.norm2.weight");
    assert_eq!(text(&Block { query_norm: false, ..complete() }), "missing tensor blocks.0.attn.q_norm.weight");
    assert_eq!(text(&Block { key_norm: false, ..complete() }), "missing tensor blocks.0.attn.k_norm.weight");
    assert_eq!(text(&dit.block("blocks.7")), "missing tensor blocks.7.norm1.weight");
}

#[test]
fn a_workspace_is_sized_by_its_rows() {
    let shape = WorkspaceShape {
        tokens: 10,
        expanded_rows: 0,
        adapter_rank: 0,
        adapter_rows: 30,
        gated: true,
        nvfp4_columns: 256,
        nvfp4_adapter_rank: 64,
    };
    let workspace = Workspace::new(&CONFIG, shape);
    assert_eq!((workspace.residual, workspace.normalized, workspace.qkv), (10 * 256 * 4, 10 * 256 * 2, 10 * 768 * 2));
    assert_eq!((workspace.expanded, workspace.activated), (1024 * 2, 10 * 512 * 2));
    assert_eq!((workspace.quantized, workspace.scales, workspace.adapter), (10 * 512, 40, 60));
    assert_eq!(workspace.gate, Some(10 * 256 * 2));
    assert_eq!(workspace.nvfp4, Some(Nvfp4Activations { rows: 10, columns: 256, adapter_rank: 64 }));
}

/// Two text rows, a keyframe, the audio and the video.
fn layout() -> PackedLayout {
    let kinds = [
        (SegmentKind::Text, 0, 2),
        (SegmentKind::KeyframeVideo(0), 2, 3),
        (SegmentKind::Audio, 3, 5),
        (SegmentKind::Video, 5, 9),
    ];
    PackedLayout { segments: kinds.into_iter().map(|(kind, start, end)| Segment { kind, start, end }).collect() }
}

#[test]
fn segments_enter_at_their_rows() {
    let layout = layout();
    assert_eq!(layout.len(), 9);
    assert_eq!(layout.segment(SegmentKind::Audio).run(), Run { start: 3, end: 5 });
    let all = embeds(&layout, Run { start: 0, end: 9 });
    assert_eq!(
        all,
        vec![
            Embed { kind: SegmentKind::Audio, projection: Projection::Audio, taken: Run { start: 0, end: 2 }, row: 3 },
            Embed { kind: SegmentKind::Video, projection: Projection::Video, taken: Run { start: 0, end: 4 }, row: 5 },
            Embed {
                kind: SegmentKind::KeyframeVideo(0),
                projection: Projection::Video,
                taken: Run { start: 0, end: 1 },
                row: 2,
            },
        ]
    );
    // A rank with the rows from 4 on takes the last audio row and the video.
    let own = embeds(&layout, Run { start: 4, end: 9 });
    assert_eq!(
        own,
        vec![
            Embed { kind: SegmentKind::Audio, projection: Projection::Audio, taken: Run { start: 1, end: 2 }, row: 0 },
            Embed { kind: SegmentKind::Video, projection: Projection::Video, taken: Run { start: 0, end: 4 }, row: 1 },
        ]
    );
}

#[test]
fn every_block_leaves_its_output_to_the_next() {
    assert_eq!(
        blocks(3, &vec![1], true),
        vec![
            LoopStep::Modulate { layer: 0, table: 0 },
            LoopStep::Block { layer: 0, table: 0, pending: None },
            LoopStep::Routed,
            LoopStep::Modulate { layer: 1, table: 1 },
            LoopStep::Block { layer: 1, table: 1, pending: Some(0) },
            LoopStep::Routed,
            LoopStep::AddPending { table: 1 },
            LoopStep::Capture { layer: 1 },
            LoopStep::Modulate { layer: 2, table: 0 },
            LoopStep::Block { layer: 2, table: 0, pending: None },
            LoopStep::Routed,
            LoopStep::AddPending { table: 0 },
        ]
    );
    assert!(blocks(0, &Vec::new(), false).is_empty());
    let sparse = SparseAttention { min_tokens: 9, method: Sparse::Sol };
    assert_eq!(sparse_method(Some(sparse), 9), Some(Sparse::Sol));
    assert_eq!(sparse_method(Some(sparse), 8), None);
    assert_eq!(sparse_method(None, 9), None);
}

fn nothing_cached() -> Cached {
    Cached { workspace: None, quantized: None, sparse: None, vsa: None, text: false }
}

#[test]
fn a_call_takes_the_whole_sequence() {
    let mut dit = model(DType::Bf16);
    let forward = dit.forward(&layout(), 2, Vec::new(), None, &nothing_cached()).unwrap();
    assert_eq!((forward.rows, forward.heads, forward.tokens), (Run { start: 0, end: 9 }, Run { start: 0, end: 2 }, 9));
    assert_eq!((forward.shape.tokens, forward.shape.expanded_rows, forward.shape.adapter_rows), (9, 9, 9));
    assert!(!forward.reused && !forward.quantized && forward.head == 0);
    assert_eq!(forward.text, TextStates::Refined);
    assert_eq!(forward.kept_quantized, Kept::AsItWas);
    assert_eq!(forward.blocks.len(), 7);
    let call = forward.block_call(&CONFIG, false, true);
    assert!(call.modulated && call.pending && call.activations.is_none());
    assert_eq!((call.tokens, call.heads, call.pairs), (9, 2, 30));
    let refiner = forward.refiner_call(&CONFIG, 2);
    assert!(!refiner.modulated && refiner.sparse.is_none() && !refiner.quantized);
    assert_eq!(refiner.tokens, 2);

    dit.set_attention_precision(AttentionPrecision::Int8Fp8);
    dit.keep_text();
    let cached = Cached { workspace: Some(forward.shape), text: true, ..nothing_cached() };
    let again = dit.forward(&layout(), 2, Vec::new(), None, &cached).unwrap();
    assert!(again.reused && again.quantized);
    assert_eq!(again.text, TextStates::Copied);
    assert_eq!(again.kept_quantized, Kept::Made(Extent { tokens: 9, heads: 2 }));

    let extent = Extent { tokens: 9, heads: 2 };
    let held = SparseHeld { precision: AttentionPrecision::Int8Fp8, extent, same_tiles: true };
    let vsa = SparseAttention { min_tokens: 0, method: Sparse::Vsa };
    let cached = Cached { sparse: Some(held), vsa: Some(held), ..nothing_cached() };
    let sparse = dit.forward(&layout(), 2, Vec::new(), Some(vsa), &cached).unwrap();
    assert!(!sparse.quantized);
    assert_eq!((sparse.kept_sparse, sparse.kept_vsa), (Kept::Dropped, Kept::AsItWas));
    let cached = Cached { vsa: Some(SparseHeld { same_tiles: false, ..held }), ..nothing_cached() };
    let sparse = dit.forward(&layout(), 2, Vec::new(), Some(vsa), &cached).unwrap();
    assert_eq!(sparse.kept_vsa, Kept::Made(extent));
}

fn shard(rank: usize) -> Shard {
    Shard {
        rank,
        tokens: vec![Run { start: 0, end: 4 }, Run { start: 4, end: 9 }],
        heads: vec![Run { start: 0, end: 1 }, Run { start: 1, end: 2 }],
    }
}

#[test]
fn a_rank_takes_its_rows_and_heads() {
    let dit = model(DType::I8);
    let forward = dit.forward_shard(&layout(), 2, None, shard(1), &nothing_cached()).unwrap();
    assert_eq!((forward.rows, forward.heads), (Run { start: 4, end: 9 }, Run { start: 1, end: 2 }));
    assert_eq!(forward.text, TextStates::Elsewhere);
    // The fused MLP needs room for text rows alone, and this rank has none.
    assert_eq!((forward.shape.tokens, forward.shape.expanded_rows), (5, 0));
    assert_eq!(dit.forward_shard(&layout(), 2, None, shard(0), &nothing_cached()).unwrap().shape.expanded_rows, 2);
}

#[test]
fn a_step_that_cannot_be_shared_out_says_why() {
    let run = |dit: &CudaDit, call: RunCall| dit.run(&layout(), &call, &nothing_cached()).err().unwrap().text();
    let step = |shard: Shard, text_tokens: usize, capture: Vec<usize>| RunCall {
        text_tokens,
        capture,
        sparse: None,
        shard: Some(shard),
    };
    let mut dit = model(DType::I8);
    let mut short = shard(0);
    short.tokens[1].end = 8;
    assert_eq!(run(&dit, step(short, 2, Vec::new())), "a shard that does not cover the step");
    assert_eq!(run(&dit, step(shard(0), 2, vec![1])), "a sharded step cannot capture blocks");
    assert_eq!(run(&dit, step(shard(1), 5, Vec::new())), "the text rows must fall to rank 0 alone");
    add_to(&mut dit, "blocks.1.attn.qkv_proj.weight", DType::Bf16, &[768, 256]);
    assert_eq!(
        run(&dit, step(shard(0), 2, Vec::new())),
        "a sharded step needs INT8 attention projections, and block 1 has none"
    );
    dit.nvfp4.insert("x".to_owned(), Nvfp4Weight { outputs: 1, features: 64, columns: 64, rank: 0 });
    assert_eq!(run(&dit, step(shard(0), 2, Vec::new())), "a sharded step cannot run NVFP4 layers");
}

#[test]
fn a_shared_block_exchanges_its_input_and_its_attention() {
    let dit = model(DType::I8);
    let call = SharedCall { tokens: 9, pairs: 30, sparse: None, quantized: false };
    let steps = exchange::sharded_attention(&dit.main_block(0), &CONFIG, &shard(1), &call).unwrap();
    assert_eq!(steps.iter().filter(|step| matches!(step, ShardStep::Barrier)).count(), 4);
    assert!(steps.contains(&ShardStep::Attend { attending: Attending::Dense, prepared: false, rows: 9, heads: 1 }));
    // Each peer gets the rows of this rank with their scales, and the attention of its own rows.
    let written: Vec<usize> = steps
        .iter()
        .filter_map(|step| match step {
            ShardStep::Write { peer: 0, bytes, .. } => Some(*bytes),
            _ => None,
        })
        .collect();
    assert_eq!(written, vec![5 * 256, 5 * 4, 4 * 128 * 2]);
    let phases: Vec<Phase> = steps
        .iter()
        .filter_map(|step| match step {
            ShardStep::Charge(phase) => Some(*phase),
            _ => None,
        })
        .collect();
    assert_eq!(phases[0], Phase::Gather);
    // Making room for the attention is charged to no phase.
    let room = |step: &ShardStep| matches!(step, ShardStep::Reserve { region: Region::Attended, .. });
    let place = steps.iter().rposition(room).unwrap();
    assert_eq!(steps[place + 1], ShardStep::Restart);
    let received: Vec<Region> = steps
        .iter()
        .filter_map(|step| match step {
            ShardStep::Receive { region, .. } => Some(*region),
            _ => None,
        })
        .collect();
    assert_eq!(received, vec![Region::Normalized, Region::Scales, Region::Received(0)]);
}

#[test]
fn parts_of_a_step_come_back_together() {
    let dit = model(DType::Bf16);
    let parts = vec![
        VelocityPart { rows: Run { start: 0, end: 4 }, video: vec![], audio: vec![10] },
        VelocityPart { rows: Run { start: 4, end: 9 }, video: vec![1, 2, 3, 4, 5, 6, 7, 8], audio: vec![20] },
    ];
    let vsa = SparseAttention { min_tokens: 9, method: Sparse::Vsa };
    let velocity = dit.assemble_velocity(&layout(), Some(vsa), &parts, 0).unwrap();
    assert_eq!((velocity.video, velocity.audio, velocity.reordered), (vec![1, 2, 3, 4, 5, 6, 7, 8], vec![10, 20], true));
    let text = |parts: Vec<VelocityPart<i32>>| dit.assemble_velocity(&layout(), None, &parts, 0).err().unwrap().text();
    let last = VelocityPart { rows: Run { start: 4, end: 9 }, video: vec![1, 2, 3], audio: vec![20] };
    assert_eq!(text(vec![last]), "a part of 3 values for 4 rows");
    let first = VelocityPart { rows: Run { start: 0, end: 6 }, video: vec![1, 2], audio: vec![10, 20] };
    assert_eq!(text(vec![first]), "the parts cover 1 of 4 rows");
    // As many rows as the segment has do not cover it where one of them comes twice.
    let twice = || VelocityPart { rows: Run { start: 4, end: 7 }, video: vec![1, 2, 3, 4], audio: vec![20] };
    assert_eq!(text(vec![twice(), twice()]), "the parts cover a row twice");
}

#[test]
fn int8_layers_switch_to_nvfp4() {
    let mut dit = model(DType::I8);
    add_to(&mut dit, "blocks.0.attn.to_gate_compress.weight", DType::I8, &[256, 256]);
    add_to(&mut dit, "blocks.0.attn.to_gate_compress.weight_scale", DType::F32, &[256]);
    let mut place = 0;
    let mut names = Vec::new();
    while let Some((next, conversion)) = dit.use_nvfp4(place).unwrap() {
        names.push(conversion.name.clone());
        assert_eq!(conversion.weight.rank, 0);
        dit.converted(conversion);
        place = next;
    }
    assert_eq!(names.len(), 13);
    assert_eq!(
        names[..5],
        [
            "blocks.0.attn.qkv_proj",
            "blocks.0.attn.to_gate_compress",
            "blocks.0.attn.out_proj",
            "blocks.0.mlp.fc1",
            "blocks.0.mlp.fc2"
        ]
    );
    assert_eq!(dit.nvfp4.len(), 13);
    let first = dit.next_call("blocks.0.mlp.fc2").unwrap();
    assert!(matches!(first.margin, Margin::Exact));
    assert!(matches!(dit.next_call("blocks.0.mlp.fc2").unwrap().margin, Margin::Delayed));
    assert!(dit.next_call("blocks.9.mlp.fc2").is_none());
    // Nothing is left to switch.
    assert!(dit.use_nvfp4(0).unwrap().is_none());
    let forward = dit.forward(&layout(), 2, Vec::new(), None, &nothing_cached()).unwrap();
    // The rows ahead of the video stay with the INT8 weights.
    assert_eq!((forward.head, forward.shape.nvfp4_columns), (5, 512));
    let call = forward.block_call(&CONFIG, false, false);
    assert_eq!(call.activations, Some(Nvfp4Activations { rows: 9, columns: 512, adapter_rank: 0 }));
    let steps = dit.main_block(0).transformer_block(&call).unwrap();
    assert!(steps.iter().any(|step| matches!(step, BlockStep::Nvfp4 { part: Part::Fc2, .. })));
}

#[test]
fn a_layer_that_cannot_switch_says_why() {
    let text = |dit: &CudaDit| dit.use_nvfp4(0).err().unwrap().text();
    let mut dit = model(DType::I8);
    dit.tensors.remove("blocks.0.attn.qkv_proj.weight_scale");
    assert_eq!(text(&dit), "missing tensor blocks.0.attn.qkv_proj.weight_scale");
    let mut dit = model(DType::I8);
    let adapter = LowRank { columns: None, rank: 64, inputs: 256, outputs: 768 };
    dit.adapters.insert("blocks.0.attn.qkv_proj".to_owned(), adapter);
    assert_eq!(text(&dit), "blocks.0.attn.qkv_proj: the adapter has no quantized down projection");
    let mut dit = model(DType::I8);
    add_to(&mut dit, "blocks.0.attn.to_gate_compress.weight", DType::I8, &[256, 256]);
    add_to(&mut dit, "blocks.0.attn.to_gate_compress.weight_scale", DType::F32, &[256]);
    let adapter = LowRank { columns: Some(128), rank: 64, inputs: 256, outputs: 256 };
    dit.adapters.insert("blocks.0.attn.to_gate_compress".to_owned(), adapter);
    let (next, conversion) = dit.use_nvfp4(0).unwrap().unwrap();
    dit.converted(conversion);
    assert_eq!(
        dit.use_nvfp4(next).err().unwrap().text(),
        "blocks.0.attn.to_gate_compress: NVFP4 VSA gates do not take LoRAs"
    );
}

fn info(name: &str, dtype: DType, shape: &[usize]) -> TensorInfo {
    TensorInfo { name: format!("diffusion_model.{name}"), dtype, shape: shape.to_vec() }
}

fn lora_file(layer: &str, outputs: usize, inputs: usize) -> Vec<TensorInfo> {
    vec![
        info(&format!("{layer}.alpha"), DType::F32, &[]),
        info(&format!("{layer}.lora_A.weight"), DType::Bf16, &[48, inputs]),
        info(&format!("{layer}.lora_B.weight"), DType::Bf16, &[outputs, 48]),
        info("adaln_t_table", DType::F32, &[4, 4]),
        info("new.weight", DType::F32, &[4]),
    ]
}

#[test]
fn a_lora_is_adapted_or_merged() {
    let mut dit = model(DType::I8);
    let file = lora_file("blocks.1.mlp.fc1", 1024, 256);
    let merged = lora::layers(&dit, &file, LoraMode::Merge).unwrap();
    assert_eq!(merged.len(), 1);
    assert_eq!(
        merged[0].action,
        LoraAction::Merge { rank: 48, inputs: 256, outputs: 1024, interleave: true }
    );
    let layers = lora::layers(&dit, &file, LoraMode::Adapter).unwrap();
    let adapter = LowRank { columns: Some(128), rank: 64, inputs: 256, outputs: 1024 };
    assert_eq!((layers[0].down, layers[0].up, layers[0].alpha), (1, 2, 0));
    assert_eq!(layers[0].action, LoraAction::Adapt { adapter, interleave: true });
    let tensors = lora::tensors(&dit, &file).unwrap();
    assert_eq!(tensors.len(), 2);
    assert!(tensors[0].time_table && !tensors[1].time_table);
    assert_eq!((tensors[1].name.as_str(), tensors[1].place), ("new.weight", 4));
    assert!(lora::is_interleaved(&dit, "blocks.1.mlp.fc1.weight_scale"));
    assert!(!lora::is_interleaved(&dit, "blocks.1.mlp.fc2.weight"));
    assert_eq!(dit.add_lora(&layers, &tensors, vec![device_tensor("new.weight", &[4], 0x2000)]).count, 3);
    assert_eq!(dit.adapters.get("blocks.1.mlp.fc1"), Some(adapter));
    let plain = model(DType::Bf16);
    let layers = lora::layers(&plain, &file, LoraMode::Merge).unwrap();
    let adapter = LowRank { columns: None, ..adapter };
    assert_eq!(layers[0].action, LoraAction::Adapt { adapter, interleave: false });
}

fn device_tensor(name: &str, shape: &[usize], address: usize) -> DeviceTensor {
    let bytes: usize = shape.iter().product::<usize>() * 4;
    let buffer = DeviceBuffer::new(&mut Allocations::new(), 0, address, bytes);
    DeviceTensor { name: name.to_owned(), dtype: DType::F32, shape: shape.to_vec(), buffer }
}

#[test]
fn text_is_refined_again_behind_a_lora() {
    let mut dit = model(DType::I8);
    let known = Cached { text: true, ..nothing_cached() };
    let text = |dit: &CudaDit| dit.forward(&layout(), 2, Vec::new(), None, &known).unwrap().text;
    assert!(!dit.keeps_text());
    assert_eq!(text(&dit), TextStates::Refined);
    dit.keep_text();
    assert_eq!(text(&dit), TextStates::Copied);
    // Text of another context is not copied.
    let other = dit.forward(&layout(), 2, Vec::new(), None, &nothing_cached()).unwrap();
    assert_eq!(other.text, TextStates::Refined);
    dit.set_attention_precision(AttentionPrecision::Int8Fp8);
    assert!(dit.keeps_text());
    let file = lora_file("blocks.1.mlp.fc1", 1024, 256);
    let layers = lora::layers(&dit, &file, LoraMode::Adapter).unwrap();
    dit.add_lora(&layers, &Vec::new(), Vec::new());
    assert!(!dit.keeps_text());
    assert_eq!(text(&dit), TextStates::Refined);
    dit.keep_text();
    assert_eq!(text(&dit), TextStates::Copied);
}

#[test]
fn tensors_of_a_lora_take_the_place_of_others() {
    let mut dit = model(DType::I8);
    add_to(&mut dit, "final_norm.weight", DType::F32, &[4]);
    let file = vec![
        info("final_norm.weight", DType::F32, &[4]),
        info("adaln_t_table", DType::F32, &[4, 4]),
        info("new.weight", DType::F32, &[8]),
    ];
    let tensors = lora::tensors(&dit, &file).unwrap();
    let uploaded =
        vec![device_tensor("final_norm.weight", &[4], 0x2000), device_tensor("new.weight", &[8], 0x3000)];
    let added = dit.add_lora(&Vec::new(), &tensors, uploaded);
    // The time table counts, though it is no tensor of the device.
    assert_eq!(added.count, 3);
    let displaced: Vec<usize> = added.displaced.iter().map(|tensor| tensor.buffer.pointer()).collect();
    assert_eq!(displaced, vec![0x1000]);
    let place = |name: &str| dit.tensors.get(name).unwrap().buffer.pointer();
    assert_eq!((place("final_norm.weight"), place("new.weight")), (0x2000, 0x3000));
    assert_eq!(place("blocks.0.mlp.fc1.weight"), 0x1000);
    assert!(dit.tensors.optional("adaln_t_table").is_none());
}

#[test]
fn a_lora_that_does_not_fit_says_why() {
    let text = |dit: &CudaDit, file: &Vec<TensorInfo>| lora::layers(dit, file, LoraMode::Adapter).err().unwrap().text();
    let mut dit = model(DType::I8);
    let layer = "blocks.1.mlp.fc1";
    assert_eq!(text(&dit, &lora_file("blocks.9.mlp.fc1", 1, 1)), "missing tensor blocks.9.mlp.fc1.weight");
    assert_eq!(text(&dit, &lora_file(layer, 1024, 255)), format!("the LoRA of {layer} does not fit the layer"));
    let mut file = lora_file(layer, 1024, 256);
    file.remove(2);
    assert_eq!(text(&dit, &file), format!("{layer} has no lora_B"));
    let mut file = lora_file(layer, 1024, 256);
    file.remove(0);
    assert_eq!(text(&dit, &file), format!("missing tensor diffusion_model.{layer}.alpha"));
    let file = lora_file(layer, 1024, 256);
    assert_eq!(text(&model(DType::F16), &file), format!("LoRA on {layer} needs BF16 activations"));
    dit.adapters.insert(layer.to_owned(), LowRank { columns: None, rank: 64, inputs: 1, outputs: 1 });
    assert_eq!(text(&dit, &file), format!("{layer} already has a LoRA"));
    dit.nvfp4.insert(layer.to_owned(), Nvfp4Weight { outputs: 1, features: 64, columns: 64, rank: 0 });
    assert_eq!(text(&dit, &file), format!("{layer}: add LoRAs before switching to NVFP4"));
    add_to(&mut dit, "new.weight", DType::F32, &[5]);
    assert_eq!(
        lora::tensors(&dit, &file).err().unwrap().text(),
        "new.weight in the LoRA does not match the checkpoint's"
    );
}

#[test]
fn a_model_is_loaded_tensor_by_tensor() {
    let info = |name: &str| TensorInfo { name: name.to_owned(), dtype: DType::Bf16, shape: vec![1] };
    let file = vec![info("model.adaln_t_table"), info("model.blocks.0.norm1.weight"), info("model.blocks.0.mlp.fc1.comfy_quant")];
    let told = vec![None, None, Some(Quantization::NotText)];
    let refused = CudaDit::load(&file, "model.", &CONFIG, &told).err().unwrap();
    assert_eq!(refused.text(), "blocks.0.mlp.fc1.comfy_quant is not UTF-8");
    let read = Quantization::Read {
        text: "{..}".to_owned(),
        format: Some("int8_tensorwise".to_owned()),
        convrot: Some(true),
        group: Some(256),
    };
    let list = CudaDit::load(&file, "model.", &CONFIG, &vec![None, None, Some(read)]).ok().unwrap();
    assert_eq!(list.len(), 3);
    assert!(matches!(&list[0], Loaded::Skipped));
    assert!(matches!(&list[1], Loaded::Uploaded(name) if name == "blocks.0.norm1.weight"));
    assert!(matches!(&list[2], Loaded::Quantization(_)));
    let odd = DitConfig { head_dim: 64, ..CONFIG };
    let refused = CudaDit::load(&file, "model.", &odd, &told).err().unwrap();
    assert_eq!(refused.text(), "head dimension 64 is not 128");
}

#[test]
fn a_call_launches_text_patches_blocks_and_the_last_layer() {
    let dit = model(DType::Bf16);
    let forward = dit.forward(&layout(), 2, Vec::new(), None, &nothing_cached()).unwrap();
    let steps = forward.steps(&CONFIG, 2);
    assert_eq!(
        steps[..5],
        [
            CallStep::ProjectText { rows: 2 },
            CallStep::WidenText { count: 512 },
            CallStep::RefineText { layer: 0 },
            CallStep::NormalizeText { rows: 2 },
            CallStep::KeepText { bytes: 2048 },
        ]
    );
    let embeds = forward.embeds.iter().map(|&embed| CallStep::Embed { embed, offset: embed.row * 1024 });
    let blocks = forward.blocks.iter().map(|&step| CallStep::Loop { step });
    let middle: Vec<CallStep> = embeds.chain(blocks).collect();
    let last = 5 + middle.len();
    assert_eq!(steps[5..last], middle[..]);
    assert_eq!(steps[last..last + 2], [CallStep::ModulateLast, CallStep::NormalizeLast { rows: 9 }]);
    let (video, audio) = (forward.video.unwrap(), forward.audio.unwrap());
    let velocity = |projection, part: Embed, width| {
        CallStep::Velocity { projection, offset: part.row * 1024, rows: part.taken.len(), width }
    };
    assert_eq!(steps[last + 2..], [velocity(Projection::Video, video, 2), velocity(Projection::Audio, audio, 1)]);
    assert_eq!(Projection::Video.patch_layer(), "video_patch_proj");
    assert_eq!(Projection::Audio.velocity_layer(), "final_layer.audio_out");

    let known = Cached { text: true, ..nothing_cached() };
    let mut dit = dit;
    dit.keep_text();
    let forward = dit.forward(&layout(), 2, Vec::new(), None, &known).unwrap();
    assert_eq!(forward.steps(&CONFIG, 2)[0], CallStep::CopyText { bytes: 2048 });
    let other = model(DType::I8).forward_shard(&layout(), 2, None, shard(1), &nothing_cached()).unwrap();
    assert!(matches!(other.steps(&CONFIG, 2)[0], CallStep::Embed { .. }));
    // Every launch stays in the rows of the rank.
    for step in other.steps(&CONFIG, 2) {
        if let CallStep::Embed { embed, offset } = step {
            assert!(offset + embed.taken.len() * 1024 <= other.rows.len() * 1024);
        }
    }
}

#[test]
fn parts_of_a_step_may_come_in_any_order() {
    let dit = model(DType::Bf16);
    let part = |start: usize, end: usize, video: &[i32], audio: &[i32]| VelocityPart {
        rows: Run { start, end },
        video: video.to_vec(),
        audio: audio.to_vec(),
    };
    let first = || part(0, 4, &[], &[10]);
    let second = || part(4, 6, &[1, 2], &[20]);
    let third = || part(6, 9, &[3, 4, 5, 6, 7, 8], &[]);
    for parts in [vec![first(), second(), third()], vec![third(), first(), second()], vec![second(), third(), first()]] {
        let velocity = dit.assemble_velocity(&layout(), None, &parts, 0).unwrap();
        assert_eq!((velocity.video, velocity.audio), (vec![1, 2, 3, 4, 5, 6, 7, 8], vec![10, 20]));
    }
    assert!(dit.assemble_velocity(&layout(), None, &vec![third(), first()], 0).is_err());
}

#[test]
fn a_second_switch_changes_nothing() {
    let mut dit = model(DType::I8);
    let mut switch = || {
        let mut switch = Switch::new();
        assert!(dit.can_go_on(switch.place));
        while let Some((next, conversion)) = dit.use_nvfp4(switch.place).unwrap() {
            switch.take(&mut dit, next, conversion);
        }
        (switch.changed, dit.nvfp4.len())
    };
    assert_eq!(switch(), (12, 12));
    assert_eq!(switch(), (0, 12));
}

#[test]
fn a_layer_without_its_bytes_does_not_convert() {
    let mut dit = model(DType::I8);
    assert!(dit.is_convertible(0, Part::Qkv) && dit.is_convertible(0, Part::Gate));
    add_to(&mut dit, "blocks.0.attn.qkv_proj.weight", DType::I8, &[768]);
    assert!(!dit.is_convertible(0, Part::Qkv) && !dit.can_go_on(0));
    let mut dit = model(DType::I8);
    add_to(&mut dit, "blocks.0.attn.out_proj.weight", DType::I8, &[256, 200]);
    assert!(!dit.is_convertible(0, Part::Out) && dit.can_go_on(0) && !dit.can_go_on(1));
}

#[test]
fn one_rank_alone_runs_the_whole_step() {
    let dit = model(DType::I8);
    let alone = || Shard { rank: 0, tokens: vec![Run { start: 0, end: 9 }], heads: vec![Run { start: 0, end: 2 }] };
    let whole = dit.forward(&layout(), 2, Vec::new(), None, &nothing_cached()).unwrap();
    let shared = dit.forward_shard(&layout(), 2, None, alone(), &nothing_cached()).unwrap();
    assert_eq!((shared.rows, shared.heads, shared.shape), (whole.rows, whole.heads, whole.shape));
    assert_eq!(shared.steps(&CONFIG, 2), whole.steps(&CONFIG, 2));
    let call = SharedCall { tokens: 9, pairs: 30, sparse: None, quantized: false };
    let steps = exchange::sharded_attention(&dit.main_block(0), &CONFIG, &alone(), &call).unwrap();
    assert!(!steps.iter().any(|step| matches!(step, ShardStep::Write { .. } | ShardStep::Receive { .. })));
    assert!(steps.contains(&ShardStep::Attend { attending: Attending::Dense, prepared: false, rows: 9, heads: 2 }));
    let part = VelocityPart { rows: Run { start: 0, end: 9 }, video: vec![1, 2, 3, 4, 5, 6, 7, 8], audio: vec![9, 10] };
    let velocity = dit.assemble_velocity(&layout(), None, &vec![part], 0).unwrap();
    assert_eq!((velocity.video, velocity.audio), (vec![1, 2, 3, 4, 5, 6, 7, 8], vec![9, 10]));
}

#[test]
fn a_lora_is_taken_tensor_by_tensor() {
    let dit = model(DType::I8);
    let mut file = lora_file("blocks.1.mlp.fc1", 1024, 256);
    assert!(lora::are_matrices(&dit, &file));
    assert!(lora::take(&dit, &file, LoraMode::Merge, 0).unwrap().is_none());
    assert_eq!(lora::take(&dit, &file, LoraMode::Merge, 1).unwrap().unwrap().layer, "blocks.1.mlp.fc1");
    assert!(lora::take_tensor(&dit, &file, 1).unwrap().is_none());
    assert_eq!(lora::take_tensor(&dit, &file, 4).unwrap().unwrap().name, "new.weight");
    file[1].shape = vec![48];
    assert!(!lora::are_matrices(&dit, &file));
}
