use mmh3::checkpoint::TensorInfo;
use mmh3::device::{Allocations, DeviceBuffer};
use mmh3::model::{DType, DeviceTensor, DeviceTensors, Quantization};
use mmh3::text_encoder::{
    encoder_config, layout, tensor_info, CudaTextEncoder, Joined, Piece, TextEncoderConfig, TextLoad, TextStep,
    TextWorkspace,
};
use mmh3::vision::{CudaVisionEncoder, Merging, VisionBuffer, VisionLinear, VisionNorm, VisionStep};

fn info(name: &str, dtype: DType, shape: &[usize]) -> TensorInfo {
    TensorInfo { name: name.to_owned(), dtype, shape: shape.to_vec() }
}

const CONFIG: TextEncoderConfig =
    TextEncoderConfig { vocabulary: 100, hidden: 256, layers: 1, query_heads: 2, key_value_heads: 1, ffn: 512 };

fn text_file() -> Vec<TensorInfo> {
    vec![
        info("model.embed_tokens.weight", DType::Bf16, &[100, 256]),
        info("model.layers.0.input_layernorm.weight", DType::Bf16, &[256]),
        info("model.layers.0.self_attn.q_proj.weight", DType::I8, &[256, 256]),
        info("model.layers.0.self_attn.q_proj.weight_scale", DType::F32, &[256]),
        info("model.layers.0.self_attn.k_proj.weight", DType::I8, &[128, 256]),
        info("model.layers.0.self_attn.k_proj.weight_scale", DType::F32, &[128]),
        info("model.layers.0.mlp.gate_proj.weight", DType::I8, &[512, 256]),
        info("model.odd.weight", DType::I8, &[4, 128]),
        info("model.odd.weight_scale", DType::F32, &[4]),
        info("model.plain.weight", DType::Bf16, &[4, 256]),
        info("model.plain.weight_scale", DType::F32, &[4]),
    ]
}

#[test]
fn a_text_encoder_is_read_from_its_checkpoint() {
    let file = text_file();
    assert_eq!(encoder_config(&file).unwrap(), CONFIG);
    assert_eq!(CONFIG.qkv_width(), 512);
    assert_eq!(tensor_info(&file, "layers.0.input_layernorm.weight").unwrap(), 1);
    assert_eq!(tensor_info(&file, "x").unwrap_err().text(), "missing tensor model.x");
    let mut other = text_file();
    other[0].dtype = DType::F16;
    assert_eq!(
        encoder_config(&other).unwrap_err().text(),
        "unsupported text encoder TextEncoderConfig { vocabulary: 100, hidden: 256, layers: 1, query_heads: 2, key_value_heads: 1, ffn: 512 } with F16 embeddings"
    );
}

fn convrot() -> Quantization {
    Quantization::Read {
        text: "{}".to_owned(),
        format: Some("int8_tensorwise".to_owned()),
        convrot: Some(true),
        group: Some(256),
    }
}

#[test]
fn layers_are_joined_row_by_row() {
    let file = text_file();
    let mut joined = Joined::new();
    joined.insert(&file, "qkv", "layers.0.self_attn.q_proj", convrot()).unwrap();
    joined.insert(&file, "qkv", "layers.0.self_attn.k_proj", convrot()).unwrap();
    assert_eq!(
        joined.weights,
        vec![
            Piece { place: 2, offset: 0, bytes: 256 * 256 },
            Piece { place: 4, offset: 256 * 256, bytes: 128 * 256 },
        ]
    );
    assert_eq!((joined.weight_bytes, joined.scale_bytes, joined.outputs), (384 * 256, 384 * 4, 384));
    assert_eq!(joined.scales[1], Piece { place: 5, offset: 1024, bytes: 512 });
    let mut text = |part: &str| joined.insert(&file, "qkv", part, convrot()).unwrap_err().text();
    assert_eq!(text("odd"), "odd does not share its input width with qkv");
    assert_eq!(text("plain"), "plain is not a per-channel INT8 layer");
    assert_eq!(text("none"), "missing tensor model.none.weight");
}

#[test]
fn a_text_encoder_loads_its_layers_in_order() {
    let steps = CudaTextEncoder::load(&CONFIG);
    let names: Vec<String> = steps
        .into_iter()
        .map(|step| match step {
            TextLoad::Tensor(name) => name,
            TextLoad::Join { name, parts } => format!("{name} of {}", parts.len()),
        })
        .collect();
    assert_eq!(
        names,
        vec![
            "embed_tokens.weight",
            "layers.0.input_layernorm.weight",
            "layers.0.post_attention_layernorm.weight",
            "layers.0.self_attn.q_norm.weight",
            "layers.0.self_attn.k_norm.weight",
            "layers.0.self_attn.qkv_proj of 3",
            "layers.0.self_attn.o_proj of 1",
            "layers.0.mlp.gate_up_proj of 2",
            "layers.0.mlp.down_proj of 1",
        ]
    );
}

fn text_encoder() -> CudaTextEncoder {
    let mut allocations = Allocations::new();
    let mut tensors = DeviceTensors::new();
    let mut insert = |name: &str, dtype: DType, shape: &[usize]| {
        let buffer = DeviceBuffer::new(&mut allocations, 0, 0x1000, 64);
        tensors.insert(DeviceTensor { name: name.to_owned(), dtype, shape: shape.to_vec(), buffer });
    };
    insert("embed_tokens.weight", DType::Bf16, &[100, 256]);
    for norm in ["input_layernorm", "post_attention_layernorm", "self_attn.q_norm", "self_attn.k_norm"] {
        insert(&format!("layers.0.{norm}.weight"), DType::Bf16, &[256]);
    }
    for (name, outputs, features) in [
        ("self_attn.qkv_proj", 512, 256),
        ("self_attn.o_proj", 256, 256),
        ("mlp.gate_up_proj", 1024, 256),
        ("mlp.down_proj", 256, 512),
    ] {
        insert(&format!("layers.0.{name}.weight"), DType::I8, &[outputs, features]);
        insert(&format!("layers.0.{name}.weight_scale"), DType::F32, &[outputs]);
    }
    CudaTextEncoder { config: CONFIG, tensors }
}

#[test]
fn a_prompt_runs_through_the_layers() {
    let encoder = text_encoder();
    let steps = encoder.encode(&vec![1, 2, 99], &vec![0]).unwrap();
    assert_eq!(steps[0], TextStep::Embed { tokens: 3, hidden: 256 });
    assert_eq!(steps[1], TextStep::Normalize { layer: 0, second: false, tokens: 3, hidden: 256 });
    assert!(steps.contains(&TextStep::Attend { tokens: 3, heads: 2, key: 256, value: 384 }));
    assert!(steps.contains(&TextStep::SwiGlu { tokens: 3, ffn: 512 }));
    assert!(steps.contains(&TextStep::Capture { layer: 0 }));
    let text = |ids: Vec<u32>| encoder.encode(&ids, &Vec::new()).unwrap_err().text();
    assert_eq!(text(vec![]), "token ids must be non-empty and below 100");
    assert_eq!(text(vec![100]), "token ids must be non-empty and below 100");
    let layout = layout(&CONFIG);
    assert_eq!((layout.heads_per_key_value, layout.causal, layout.token_stride[0]), (2, 1, 512));
    let workspace = TextWorkspace::new(&CONFIG, 3);
    assert_eq!((workspace.residual, workspace.qkv, workspace.expanded), (3 * 256 * 4, 3 * 512 * 2, 3 * 1024 * 2));
}

fn vision_file(blocks: usize) -> Vec<TensorInfo> {
    let mut file = vec![
        info("visual.patch_embed.proj.weight", DType::F32, &[144, 12]),
        info("visual.patch_embed.proj.bias", DType::F32, &[144]),
        info("visual.pos_embed.weight", DType::F32, &[16, 144]),
    ];
    let mut both = |name: String, shape: &[usize]| {
        file.push(info(&format!("visual.{name}.weight"), DType::F32, shape));
        file.push(info(&format!("visual.{name}.bias"), DType::F32, &[shape[0]]));
    };
    for block in 0..blocks {
        both(format!("blocks.{block}.norm1"), &[144]);
        both(format!("blocks.{block}.norm2"), &[144]);
        both(format!("blocks.{block}.attn.qkv"), &[432, 144]);
        both(format!("blocks.{block}.attn.proj"), &[144, 144]);
        both(format!("blocks.{block}.mlp.linear_fc1"), &[200, 144]);
        both(format!("blocks.{block}.mlp.linear_fc2"), &[144, 200]);
    }
    for (name, width) in [
        ("deepstack_merger_list.0", 576),
        ("deepstack_merger_list.1", 576),
        ("deepstack_merger_list.2", 576),
        ("merger", 144),
    ] {
        both(format!("{name}.norm"), &[width]);
        both(format!("{name}.linear_fc1"), &[576, 576]);
        both(format!("{name}.linear_fc2"), &[300, 576]);
    }
    file
}

#[test]
fn a_vision_tower_is_read_from_its_checkpoint() {
    let encoder = CudaVisionEncoder::load(&vision_file(25), 12).unwrap();
    assert_eq!((encoder.blocks.len(), encoder.hidden, encoder.heads, encoder.output_width()), (25, 144, 2, 300));
    let text = |file: &Vec<TensorInfo>, values: usize| CudaVisionEncoder::load(file, values).err().unwrap().text();
    assert_eq!(text(&vision_file(25), 13), "unsupported vision patch embedding [144, 12]");
    assert_eq!(text(&vision_file(24), 12), "a vision tower of 24 blocks has no DeepStack features");
    let mut file = vision_file(25);
    file.retain(|tensor| tensor.name != "visual.merger.norm.bias");
    assert_eq!(text(&file, 12), "missing tensor visual.merger.norm.bias");
    for name in ["visual.patch_embed.proj.bias", "visual.pos_embed.weight"] {
        let mut file = vision_file(25);
        file.retain(|tensor| tensor.name != name);
        assert_eq!(text(&file, 12), format!("missing tensor {name}"));
    }
}

#[test]
fn deepstack_features_come_once() {
    let encoder = CudaVisionEncoder::load(&vision_file(25), 12).unwrap();
    let steps = encoder.encode(8, 2);
    assert_eq!(steps[0], VisionStep::PatchEmbed { rows: 8, outputs: 144 });
    for index in 0..3 {
        let merged = steps
            .iter()
            .filter(|step| matches!(step, VisionStep::Linear { linear: VisionLinear::DeepFc2(i), rows: 2, .. } if *i == index))
            .count();
        assert_eq!(merged, 1);
    }
    let heads = steps.iter().filter(|step| matches!(step, VisionStep::Scores { .. })).count();
    assert_eq!(heads, 25 * 2);
    assert!(steps.contains(&VisionStep::Norm { norm: VisionNorm::Main, rows: 8, width: 144 }));
    assert!(steps.contains(&VisionStep::Norm { norm: VisionNorm::Deep(0), rows: 2, width: 576 }));
}

#[test]
fn layers_of_the_vision_tower_have_their_names() {
    assert_eq!(VisionNorm::Second(7).name(), "blocks.7.norm2");
    assert_eq!(VisionNorm::Deep(1).name(), "deepstack_merger_list.1.norm");
    assert_eq!(VisionLinear::Fc2(26).name(), "blocks.26.mlp.linear_fc2");
    assert_eq!(VisionLinear::DeepFc1(2).name(), "deepstack_merger_list.2.linear_fc1");
    assert_eq!(VisionLinear::MainFc2.name(), "merger.linear_fc2");
}

#[test]
fn the_buffers_of_a_picture_hold_its_rows() {
    let encoder = CudaVisionEncoder::load(&vision_file(25), 12).unwrap();
    assert!(encoder.fits(8, 2));
    assert_eq!(encoder.bytes(8, 2, VisionBuffer::States), 8 * 144 * 4);
    assert_eq!(encoder.bytes(8, 2, VisionBuffer::Qkv), 8 * 432 * 4);
    assert_eq!(encoder.bytes(8, 2, VisionBuffer::Scores), 8 * 8 * 4);
    let expanded = encoder.blocks[0].fc1.outputs;
    assert_eq!(encoder.bytes(8, 2, VisionBuffer::Expanded), 8 * expanded * 4);
    let merged = encoder.deepstack[1].fc2.outputs;
    assert_eq!(encoder.bytes(8, 2, VisionBuffer::Merged(Merging::Deep(1))), 2 * merged * 4);
    assert_eq!(encoder.bytes(8, 2, VisionBuffer::Merged(Merging::Main)), 2 * encoder.output_width() * 4);
    let mut wide = encoder;
    wide.blocks[3].norm2 = 145;
    assert!(!wide.fits(8, 2));
    assert!(wide.fits(0, 0));
}

#[test]
fn layers_of_the_vision_tower_read_and_write_their_buffers() {
    assert_eq!(VisionLinear::Qkv(0).input(), VisionBuffer::Normalized);
    assert_eq!(VisionLinear::Qkv(0).output(), VisionBuffer::Qkv);
    assert_eq!(VisionLinear::Projection(4).input(), VisionBuffer::Attention);
    assert_eq!(VisionLinear::Fc2(4).output(), VisionBuffer::States);
    assert_eq!(VisionLinear::DeepFc1(2).output(), VisionBuffer::Joined(Merging::Deep(2)));
    assert_eq!(VisionLinear::MainFc2.input(), VisionBuffer::Joined(Merging::Main));
    assert_eq!(VisionLinear::MainFc2.output(), VisionBuffer::Merged(Merging::Main));
}
