use mmh3::checkpoint::TensorInfo;
use mmh3::device::{Allocations, DeviceBuffer};
use mmh3::model::{DType, DeviceTensor, DeviceTensors, Quantization};
use mmh3::shard::Run;
use mmh3::vae::{
    decoder_config, decoder_tensor, first_tile, tile_layout, tile_rows, CudaVideoDecoder, DecodeStep, DecoderTensor, Extents,
    TemporalPlan, TileAxis, TileBatch, TileGrid, VaeLayer, VaeStep, VaeWorkspace, VideoDecoderConfig,
};
use mmh3::tile::Slots;
use mmh3::tiling::{token_moments, TileInput};
use mmh3::video_encoder::{
    column_slice_bytes, place_moments, Activation, Buffers, Convolution, CudaVideoEncoder, Temporal, VideoStep, Which,
};

fn info(name: &str, dtype: DType, shape: &[usize]) -> TensorInfo {
    TensorInfo { name: name.to_owned(), dtype, shape: shape.to_vec() }
}

fn decoder_file() -> Vec<TensorInfo> {
    vec![
        info("v.decoder.x_embedder.weight", DType::F16, &[128, 24]),
        info("v.decoder.transformer_blocks.0.scale1", DType::F16, &[128]),
        info("v.decoder.transformer_blocks.1.scale1", DType::F16, &[128]),
        info("v.decoder.transformer_blocks.0.ff.w2.weight", DType::I8, &[128, 256]),
        info("v.decoder.transformer_blocks.0.ff.w2.bias", DType::F32, &[128]),
        info("v.decoder.transformer_blocks.0.ff.w2.weight_scale", DType::F32, &[128]),
        info("v.decoder.register_tokens", DType::F32, &[1, 4, 128]),
        info("v.decoder.proj_out.weight", DType::F16, &[3072, 128]),
        info("v.decoder.proj_out.comfy_quant", DType::U8, &[10]),
        info("v.decoder.mask_token", DType::F32, &[128]),
        info("v.latents_mean", DType::F32, &[24]),
        info("v.decoder.odd", DType::I64, &[1]),
    ]
}

const DECODER: VideoDecoderConfig =
    VideoDecoderConfig { latent_channels: 24, dim: 128, heads: 2, layers: 2, ffn: 256, registers: 4 };

#[test]
fn a_decoder_is_read_from_its_checkpoint() {
    let file = decoder_file();
    assert_eq!(decoder_config(&file, "v.", 256, 64).unwrap(), DECODER);
    let text = |file: &Vec<TensorInfo>, size: usize| decoder_config(file, "v.", size, 64).unwrap_err().text();
    assert_eq!(text(&file, 250), "tile size 250 and overlap 64 must be multiples of 16");
    let mut other = decoder_file();
    other[7].shape[0] = 3000;
    assert_eq!(
        text(&other, 256),
        "unsupported video decoder VideoDecoderConfig { latent_channels: 24, dim: 128, heads: 2, layers: 2, ffn: 256, registers: 4 }"
    );
    other.remove(7);
    assert_eq!(text(&other, 256), "missing tensor v.decoder.proj_out.weight");
}

#[test]
fn decoder_tensors_are_told_apart() {
    let file = decoder_file();
    let named = |place: usize| match decoder_tensor(&file, "v.", place) {
        Ok(DecoderTensor::Skipped) => "skipped".to_owned(),
        Ok(DecoderTensor::Quantization(name)) => format!("quantization {name}"),
        Ok(DecoderTensor::Uploaded(name)) => format!("uploaded {name}"),
        Ok(DecoderTensor::Rounded(name)) => format!("rounded {name}"),
        Ok(DecoderTensor::Halved(name)) => format!("halved {name}"),
        Err(error) => error.text(),
    };
    assert_eq!(named(0), "skipped");
    assert_eq!(named(1), "uploaded transformer_blocks.0.scale1");
    assert_eq!(named(3), "uploaded transformer_blocks.0.ff.w2.weight");
    assert_eq!(named(4), "rounded transformer_blocks.0.ff.w2.bias");
    assert_eq!(named(5), "uploaded transformer_blocks.0.ff.w2.weight_scale");
    assert_eq!(named(6), "halved register_tokens");
    assert_eq!(named(8), "quantization proj_out.comfy_quant");
    assert_eq!(named(9), "skipped");
    assert_eq!(named(10), "skipped");
    assert_eq!(named(11), "decoder.odd: unsupported dtype I64");
}

/// A decoder whose layers are FP16, or INT8 where `dtype` says so.
fn decoder(dtype: DType) -> CudaVideoDecoder {
    let mut allocations = Allocations::new();
    let mut tensors = DeviceTensors::new();
    let mut insert = |name: String, dtype: DType, shape: &[usize]| {
        let buffer = DeviceBuffer::new(&mut allocations, 0, 0x1000, 64);
        tensors.insert(DeviceTensor { name, dtype, shape: shape.to_vec(), buffer });
    };
    insert("register_tokens".to_owned(), DType::F16, &[1, 4, 128]);
    insert("norm_out.weight".to_owned(), DType::F16, &[128]);
    insert("norm_out.bias".to_owned(), DType::F16, &[128]);
    insert("proj_out.weight".to_owned(), DType::F16, &[3072, 128]);
    insert("proj_out.bias".to_owned(), DType::F16, &[3072]);
    for layer in 0..DECODER.layers {
        let prefix = format!("transformer_blocks.{layer}");
        for norm in ["norm1.weight", "norm2.weight", "attn.norm_q.weight", "attn.norm_k.weight", "scale1", "scale2"] {
            insert(format!("{prefix}.{norm}"), DType::F16, &[128]);
        }
        for (name, outputs, features) in
            [("attn.to_qkv", 384, 128), ("attn.to_out", 128, 128), ("ff.w1", 512, 128), ("ff.w2", 128, 256)]
        {
            insert(format!("{prefix}.{name}.weight"), dtype, &[outputs, features]);
            insert(format!("{prefix}.{name}.bias"), DType::F32, &[outputs]);
            insert(format!("{prefix}.{name}.weight_scale"), DType::F32, &[outputs]);
        }
    }
    CudaVideoDecoder { config: DECODER, tensors, quantized: dtype == DType::I8, tile_size: 256, tile_overlap_min: 64 }
}

fn axis(starts: &[usize], overlaps: &[usize], length: usize) -> TileAxis {
    TileAxis { starts: starts.to_vec(), overlaps: overlaps.to_vec(), length }
}

fn grid() -> TileGrid {
    TileGrid { rows: axis(&[0], &[], 32), columns: axis(&[0, 16], &[16], 32) }
}

#[test]
fn a_grid_counts_its_tiles() {
    let grid = grid();
    assert_eq!((grid.count(), grid.latent_height(), grid.latent_width()), (2, 2, 2));
    assert_eq!(TileGrid::padded(&vec![]), vec![0]);
    assert_eq!(TileGrid::padded(&vec![16, 32]), vec![16, 32, 0]);
    let workspace = VaeWorkspace::new(&DECODER, 10, false);
    assert_eq!((workspace.residual, workspace.qkv, workspace.quantized), (10 * 128 * 4, 10 * 384 * 2, 256));
}

#[test]
fn a_clip_is_decoded_chunk_by_chunk() {
    let decoder = decoder(DType::F16);
    // Two chunks of seven latent frames, the second starting five frames on.
    let plan = TemporalPlan { chunks: vec![Run { start: 0, end: 7 }, Run { start: 5, end: 12 }], frames: 39 };
    let decoding = decoder.decode(&vec![24, 12, 2, 3], &plan, &grid(), true).unwrap();
    assert_eq!((decoding.output_frames, decoding.height, decoding.width), (39, 32, 48));
    assert_eq!(
        decoding.steps,
        vec![
            DecodeStep::Upload { first_frame: 0 },
            DecodeStep::Tiles,
            DecodeStep::FirstTile,
            DecodeStep::Blend,
            DecodeStep::Write { first: 3, count: 17, blend: false, position: 0 },
            DecodeStep::Keep { first: 23, count: 5 },
            DecodeStep::Upload { first_frame: 5 },
            DecodeStep::Tiles,
            DecodeStep::Blend,
            DecodeStep::Write { first: 3, count: 17, blend: true, position: 17 },
            DecodeStep::Write { first: 23, count: 5, blend: false, position: 34 },
        ]
    );
    assert_eq!(decoding.batch.tiles, 2);
    assert_eq!(decoding.batch.patches, 7 * 2 * 2);
    assert_eq!(decoding.batch.tile_tokens, 7 * 2 * 2 + 4 + 1);
    let text = |shape: Vec<usize>| decoder.decode(&shape, &plan, &grid(), false).err().unwrap().text();
    assert_eq!(text(vec![24, 12, 2]), "latent shape [24, 12, 2] is not [channels, frames, height, width]");
    assert_eq!(text(vec![23, 12, 2, 3]), "latent shape [23, 12, 2, 3] does not match the decoder");
}

#[test]
fn tiles_run_through_every_layer() {
    let batch = TileBatch { tiles: 2, tile_tokens: 33, patches: 28, tokens: 66 };
    let steps = decoder(DType::F16).decode_tiles(&batch).unwrap();
    assert_eq!(steps[0], VaeStep::Embed { tokens: 66, dim: 128, channels: 24 });
    assert_eq!(
        steps[1],
        VaeStep::EmbedSuffix { tiles: 2, tile_tokens: 33, patches: 28, registers: 4, dim: 128 }
    );
    assert_eq!(steps.iter().filter(|step| matches!(step, VaeStep::Attend { .. })).count(), 2);
    assert_eq!(
        steps.last().unwrap(),
        &VaeStep::Half { layer: VaeLayer::Project, rows: 66, outputs: 3072, features: 128 }
    );
    let names = decoder(DType::I8).interleaved().unwrap();
    assert_eq!(names.len(), 6);
    assert_eq!(names[2], "transformer_blocks.0.ff.w1.bias");
    let mut missing = decoder(DType::F16);
    missing.tensors.remove("register_tokens");
    assert_eq!(missing.decode_tiles(&batch).unwrap_err().text(), "missing tensor register_tokens");
}

#[test]
fn tiles_are_cut_from_the_latent() {
    // One channel of one frame, two rows of three, whose values are 10 * row + column.
    let latent = Extents { channels: 1, frames: 1, height: 2, width: 3 };
    let values = vec![0, 1, 2, 10, 11, 12];
    let rows = tile_rows(&values, &latent, 0, 1, &grid(), 5);
    assert_eq!(rows, vec![0, 1, 10, 11, 0, 1, 2, 11, 12, 0]);
}

#[test]
fn patches_become_pixels() {
    let grid = TileGrid { rows: axis(&[0], &[], 16), columns: axis(&[0], &[], 16) };
    let features: Vec<u16> = (0..3072).collect();
    let pixels = first_tile(&features, 1, &grid);
    assert_eq!(pixels.len(), 4 * 3 * 16 * 16);
    let mut sorted = pixels.clone();
    sorted.sort();
    assert_eq!(sorted, features);
}

#[test]
fn temporal_taps_are_kept_from_the_end() {
    assert_eq!((Temporal::Frame.taps(), Temporal::Clip.taps()), (1, 3));
    let convolution = Convolution::load("c", &vec![2, 3, 3, 3, 3], 1).unwrap();
    assert_eq!((convolution.taps, convolution.columns), (1, 32));
    let pointwise = Convolution::load("c", &vec![1, 2, 1, 1, 1], 3).unwrap();
    assert_eq!((pointwise.taps, pointwise.columns), (1, 8));
    assert_eq!(pointwise.reordered(&vec![5, 6], 1, 0), vec![5, 6, 0, 0, 0, 0, 0, 0]);
    // Two taps of which the last is kept.
    let last = Convolution { inputs: 2, outputs: 1, kernel: 1, taps: 1, columns: 8 };
    assert_eq!(last.reordered(&vec![1, 2, 3, 4], 2, 0), vec![2, 4, 0, 0, 0, 0, 0, 0]);
    assert_eq!(Convolution::load("c", &vec![2, 3], 1).unwrap_err().text(), "c is not a Conv3d");
    assert_eq!(Convolution::load("c", &vec![2, 3, 1, 5, 5], 1).unwrap_err().text(), "c: unsupported kernel 5");
}

#[test]
fn a_buffer_is_taken_again() {
    let mut pool = Buffers::new();
    pool.give(100, 'a');
    pool.give(50, 'b');
    // Only a buffer of the same size is taken.
    assert_eq!(pool.take(50), Some('b'));
    assert_eq!(pool.take(50), None);
    assert_eq!(pool.take(100), Some('a'));
    assert!(pool.free.is_empty());
    let activation = Activation { frames: 2, height: 3, width: 4, channels: 5 };
    assert_eq!((activation.bytes(), activation.pixels()), (2 * 3 * 4 * 5 * 2, 12));
}

fn encoder_file() -> Vec<TensorInfo> {
    let mut file = Vec::new();
    let convolution = |file: &mut Vec<TensorInfo>, name: String, outputs: usize, inputs: usize, kernel: usize| {
        file.push(info(&format!("{name}.weight"), DType::F16, &[outputs, inputs, kernel, kernel, kernel]));
        file.push(info(&format!("{name}.bias"), DType::F16, &[outputs]));
    };
    let norm = |file: &mut Vec<TensorInfo>, name: String, width: usize| {
        file.push(info(&format!("{name}.weight"), DType::F16, &[width]));
        file.push(info(&format!("{name}.bias"), DType::F16, &[width]));
    };
    for level in 0..5 {
        let block = format!("encoder.down.{level}.block.0");
        let inputs = if level == 1 { 32 } else { 64 };
        let inputs = if level == 0 { 32 } else { inputs };
        let outputs = if level == 0 { 32 } else { 64 };
        norm(&mut file, format!("{block}.norm1"), inputs);
        convolution(&mut file, format!("{block}.conv1"), outputs, inputs, 3);
        norm(&mut file, format!("{block}.norm2"), outputs);
        convolution(&mut file, format!("{block}.conv2"), outputs, outputs, 3);
        if level == 1 {
            convolution(&mut file, format!("{block}.nin_shortcut"), outputs, inputs, 1);
        }
        if level < 4 {
            convolution(&mut file, format!("encoder.down.{level}.downsample.conv"), outputs, outputs, 3);
        }
    }
    convolution(&mut file, "encoder.conv_in".to_owned(), 32, 3, 3);
    norm(&mut file, "encoder.norm_out".to_owned(), 64);
    convolution(&mut file, "encoder.conv_out".to_owned(), 48, 64, 3);
    convolution(&mut file, "quant_conv".to_owned(), 48, 48, 1);
    file.push(info("latents_mean", DType::F32, &[24]));
    file.push(info("latents_std", DType::F32, &[24]));
    file
}

fn video_encoder(temporal: Temporal) -> CudaVideoEncoder {
    CudaVideoEncoder::load(&encoder_file(), temporal, 256, 64).unwrap()
}

#[test]
fn an_encoder_is_read_from_its_checkpoint() {
    let encoder = video_encoder(Temporal::Clip);
    assert_eq!(encoder.levels.len(), 5);
    assert_eq!((encoder.input.inputs, encoder.input.taps, encoder.input.columns), (3, 3, 88));
    assert!(encoder.levels[1].blocks[0].shortcut.is_some());
    assert!(encoder.levels[4].downsample.is_none());
    assert!(encoder.check(24).is_ok());
    assert_eq!(encoder.check(23).unwrap_err().text(), "unsupported video encoder");
    let text = |file: &Vec<TensorInfo>| CudaVideoEncoder::load(file, Temporal::Clip, 256, 64).err().unwrap().text();
    let mut short = encoder_file();
    short.retain(|tensor| tensor.name != "encoder.conv_in.bias");
    assert_eq!(text(&short), "missing tensor encoder.conv_in.bias");
    let mut fewer = encoder_file();
    fewer.retain(|tensor| !tensor.name.starts_with("encoder.down.3.downsample"));
    assert_eq!(text(&fewer), "unsupported video encoder");
}

#[test]
fn frames_are_encoded_in_groups() {
    assert_eq!(CudaVideoEncoder::latent_frames(1), 2);
    assert_eq!(CudaVideoEncoder::latent_frames(17), 2);
    assert_eq!(CudaVideoEncoder::latent_frames(18), 7);
    let clip = video_encoder(Temporal::Clip);
    let encoding = clip.encode_clip(&vec![18, 32, 16, 3], 18 * 32 * 16 * 3).unwrap();
    assert_eq!((encoding.clips, encoding.clip_frames, encoding.tokens), (2, 17, 5));
    assert_eq!((encoding.latent_frames, encoding.latent_height, encoding.latent_width), (7, 2, 1));
    assert_eq!((encoding.group_tokens(0), encoding.group_tokens(1)), (5, 2));
    let picture = video_encoder(Temporal::Frame);
    let encoding = picture.encode_picture(&vec![32, 16, 3], 32 * 16 * 3).unwrap();
    assert_eq!((encoding.clips, encoding.latent_frames), (1, 1));
    let text = |result: Result<mmh3::video_encoder::Encoding, mmh3::model::Error>| result.err().unwrap().text();
    assert_eq!(text(picture.encode_picture(&vec![32, 16], 1)), "a picture is [height, width, 3]");
    assert_eq!(text(picture.encode_clip(&vec![32, 16], 1)), "a clip is [frames, height, width, 3]");
    assert_eq!(
        text(clip.encode_picture(&vec![32, 16, 3], 32 * 16 * 3)),
        "this encoder keeps the temporal taps of a clip"
    );
    assert_eq!(
        text(picture.encode_clip(&vec![2, 32, 16, 3], 2 * 32 * 16 * 3)),
        "this encoder keeps only the last temporal tap"
    );
    assert_eq!(text(clip.encode(1, 1, 30, 16)), "16×30 is not a multiple of 16");
    assert_eq!(text(clip.encode(7, 1, 32, 16)), "7 values are not 1 frames of 16×32 pixels");
}

#[test]
fn a_tile_runs_through_the_levels() {
    let encoder = video_encoder(Temporal::Clip);
    let (steps, output) = encoder.encode_tile(17, 64, 64, 1 << 20).unwrap();
    assert_eq!((output.frames, output.height, output.width, output.channels), (5, 4, 4, 48));
    assert!(steps.iter().any(|step| matches!(step, VideoStep::Pointwise { which: Which::Quant, rows: 80, .. })));
    let scratch = encoder.scratch(17, 64, 64, 1 << 20);
    assert!(scratch.columns <= 1 << 20 || scratch.columns > 0);
    assert_eq!(scratch.statistics, 17 * 32 * 2 * 4);
    let mut odd = video_encoder(Temporal::Clip);
    odd.levels[1].blocks[0].conv2.inputs = 1;
    assert_eq!(odd.encode_tile(17, 64, 64, 1 << 20).unwrap_err().text(), "convolution inputs do not match");
}

#[test]
fn an_input_is_read_tile_by_tile() {
    let encoding = video_encoder(Temporal::Clip).encode_clip(&vec![20, 32, 48, 3], 20 * 32 * 48 * 3).unwrap();
    assert_eq!((encoding.clips, encoding.clip_frames), (2, 17));
    let list = encoding.tiles(&axis(&[0, 16], &[0], 16), &axis(&[0, 8, 16], &[24, 24], 32));
    let mut expected = Vec::new();
    for first_frame in [0, 17] {
        for top in [0, 16] {
            for left in [0, 8, 16] {
                expected.push(TileInput { first_frame, top, left });
            }
        }
    }
    assert_eq!(list, expected);
    assert_eq!((encoding.latent_frame(0, 4), encoding.latent_frame(1, 1)), (4, 6));
}

#[test]
fn moments_of_a_tile_lie_latent_frame_by_latent_frame() {
    // Two latent pixels of 48 moments each.
    let tile: Vec<usize> = (0..3 * 96).collect();
    assert_eq!(token_moments(&tile, 16, 32, 0), &tile[..96]);
    assert_eq!(token_moments(&tile, 16, 32, 2), &tile[192..]);
}

#[test]
fn moments_are_split_by_channel() {
    // One pixel, whose 24 means are followed by its 24 variances, into the second of two frames.
    let moments: Vec<u32> = (0..48).collect();
    let mut mean = vec![99; 48];
    let mut variance = vec![99; 48];
    place_moments(&moments, 1, 2, 1, &mut mean, &mut variance);
    assert_eq!((mean[0], mean[1], mean[2], mean[47]), (99, 0, 99, 23));
    assert_eq!((variance[1], variance[46], variance[47]), (24, 99, 47));
}

#[test]
fn the_attention_of_a_tile_reads_heads_side_by_side() {
    let layout = tile_layout(128, 20);
    assert_eq!(layout.token_stride, [384, 384, 384, 128]);
    assert_eq!(layout.head_stride, [192, 192, 192, 64]);
    assert_eq!(layout.batch_stride, [7680, 7680, 7680, 2560]);
    assert_eq!((layout.heads_per_key_value, layout.causal), (0, 0));
}

#[test]
fn layers_of_the_decoder_have_their_names() {
    assert_eq!(VaeLayer::Qkv(3).name(), "transformer_blocks.3.attn.to_qkv");
    assert_eq!(VaeLayer::W2(11).name(), "transformer_blocks.11.ff.w2");
    assert_eq!(VaeLayer::Project.name(), "proj_out");
}

#[test]
fn convolutions_of_the_encoder_have_their_names() {
    let second = Which::Second { level: 2, block: 1 };
    assert_eq!(second.name(), "encoder.down.2.block.1.conv2");
    assert_eq!(second.norm().as_deref(), Some("encoder.down.2.block.1.norm2"));
    assert_eq!(Which::First { level: 0, block: 0 }.norm().as_deref(), Some("encoder.down.0.block.0.norm1"));
    assert_eq!(Which::Shortcut { level: 1, block: 0 }.name(), "encoder.down.1.block.0.nin_shortcut");
    assert_eq!(Which::Downsample { level: 3 }.name(), "encoder.down.3.downsample.conv");
    assert_eq!(Which::Downsample { level: 3 }.norm(), None);
    assert_eq!(Which::Output.norm().as_deref(), Some("encoder.norm_out"));
    assert_eq!(Which::Quant.name(), "quant_conv");
}

#[test]
fn a_slice_of_columns_follows_the_cache() {
    assert_eq!(column_slice_bytes(Some(48 << 20)), 33_554_432);
    assert_eq!(column_slice_bytes(Some(1 << 20)), 16_777_216);
    assert_eq!(column_slice_bytes(Some(-1)), 16_777_216);
    assert_eq!(column_slice_bytes(Some(i32::MAX)), 268_435_456);
    assert_eq!(column_slice_bytes(None), 16_777_216);
}

#[test]
fn a_decoder_is_loaded_tensor_by_tensor() {
    let mut file = decoder_file();
    file.truncate(11);
    let convrot = |group: u64| Quantization::Read {
        text: "{..}".to_owned(),
        format: Some("int8_tensorwise".to_owned()),
        convrot: Some(true),
        group: Some(group),
    };
    let told = |count: usize, group: u64| -> Vec<Option<Quantization>> {
        (0..count).map(|place| if place == 8 { Some(convrot(group)) } else { None }).collect()
    };
    let load = CudaVideoDecoder::load(&file, "v.", 256, 64, &told(11, 256)).ok().unwrap();
    assert_eq!(load.config, DECODER);
    assert_eq!(load.tensors.len(), 11);
    assert!(matches!(&load.tensors[4], DecoderTensor::Rounded(name) if name == "transformer_blocks.0.ff.w2.bias"));
    assert!(load.quantized);
    let refused = CudaVideoDecoder::load(&file, "v.", 256, 64, &told(11, 128)).err().unwrap();
    assert_eq!(refused.text(), "proj_out.comfy_quant: unsupported quantization {..}");
    let refused = CudaVideoDecoder::load(&decoder_file(), "v.", 256, 64, &told(12, 256)).err().unwrap();
    assert_eq!(refused.text(), "decoder.odd: unsupported dtype I64");
    let refused = CudaVideoDecoder::load(&file, "v.", 250, 64, &told(11, 256)).err().unwrap();
    assert_eq!(refused.text(), "tile size 250 and overlap 64 must be multiples of 16");
}

#[test]
fn every_launch_of_a_tile_finds_its_activations() {
    let encoder = video_encoder(Temporal::Clip);
    let (steps, moments) = encoder.encode_tile(17, 64, 64, 1 << 20).unwrap();
    let mut slots = Slots::new(Activation { frames: 17, height: 64, width: 64, channels: 3 });
    for step in &steps {
        match *step {
            VideoStep::Make { which, output } => {
                assert!(slots.target(which).is_none());
                slots.make(which, output);
            }
            VideoStep::Done { which } => {
                slots.done(which);
            }
            VideoStep::Copy { input } => {
                assert_eq!(slots.hidden, Some(input));
                slots.residual = Some(input);
            }
            VideoStep::GroupNorm { which, input } => {
                assert_eq!(slots.source(which), Some(&input));
                slots.normalized = Some(input);
            }
            VideoStep::Statistics { which, input }
            | VideoStep::Fused { which, input, .. }
            | VideoStep::Columns { which, input, .. } => assert_eq!(slots.source(which), Some(&input)),
            VideoStep::Pointwise { which, .. } | VideoStep::Product { which, .. } => assert!(slots.target(which).is_some()),
        }
    }
    assert_eq!(slots.residual, Some(moments));
}

#[test]
fn a_finished_convolution_hands_its_output_on() {
    let mut slots = Slots::new('p');
    slots.make(Which::Input, 'i');
    assert_eq!(slots.source(Which::Input), Some(&'p'));
    assert_eq!(slots.done(Which::Input), vec!['p']);
    assert_eq!(slots.hidden, Some('i'));
    let (first, second) = (Which::First { level: 0, block: 0 }, Which::Second { level: 0, block: 0 });
    slots.make(first, 'f');
    assert!(slots.done(first).is_empty());
    slots.residual = Some('r');
    slots.normalized = Some('n');
    assert_eq!(slots.source(second), Some(&'n'));
    assert_eq!(slots.target(second), Some(&'r'));
    assert_eq!(slots.done(second), vec!['i', 'f', 'n']);
    assert_eq!(slots.hidden, Some('r'));
    assert!(slots.first.is_none() && slots.residual.is_none() && slots.normalized.is_none());
}
