use mmh3::audio_encoder::{CudaAudioEncoder, Linear};
use mmh3::audio_vae::{
    AudioActivation, AudioLayer, AudioStep, Convolution, CudaAudioDecoder, Signal, SAMPLE_RATE,
};
use mmh3::checkpoint::TensorInfo;
use mmh3::model::DType;
use mmh3::sound::{padded_channel, HeadLinear, HeadNorm, Snake, SoundLayer, SoundStep};

fn info(name: &str, shape: &[usize]) -> TensorInfo {
    TensorInfo { name: name.to_owned(), dtype: DType::F32, shape: shape.to_vec() }
}

fn convolution(file: &mut Vec<TensorInfo>, name: &str, shape: &[usize; 3], bias: usize) {
    file.push(info(&format!("{name}.weight"), shape));
    file.push(info(&format!("{name}.bias"), &[bias]));
}

fn activation(file: &mut Vec<TensorInfo>, name: &str, channels: usize) {
    file.push(info(&format!("{name}.act.alpha"), &[channels]));
    file.push(info(&format!("{name}.act.beta"), &[channels]));
    file.push(info(&format!("{name}.upsample.filter"), &[1, 1, 12]));
    file.push(info(&format!("{name}.downsample.lowpass.filter"), &[1, 1, 12]));
}

/// A decoder of 128 channels, which every stage halves.
fn decoder_file() -> Vec<TensorInfo> {
    let mut file = Vec::new();
    convolution(&mut file, "a.dec_in_proj", &[8, 4, 1], 8);
    convolution(&mut file, "a.decoder.conv_pre", &[128, 8, 7], 128);
    for (stage, kernel) in [9, 9, 4, 4, 4, 4, 4].into_iter().enumerate() {
        let inputs = 128 >> stage;
        convolution(&mut file, &format!("a.decoder.ups.{stage}.0"), &[inputs, inputs / 2, kernel], inputs / 2);
        for (block, kernel) in [3, 7, 11].into_iter().enumerate() {
            let name = format!("a.decoder.resblocks.{}", stage * 3 + block);
            for unit in 0..3 {
                convolution(&mut file, &format!("{name}.convs1.{unit}"), &[inputs / 2, inputs / 2, kernel], inputs / 2);
                convolution(&mut file, &format!("{name}.convs2.{unit}"), &[inputs / 2, inputs / 2, kernel], inputs / 2);
            }
            for index in 0..6 {
                activation(&mut file, &format!("{name}.activations.{index}"), inputs / 2);
            }
        }
    }
    activation(&mut file, "a.decoder.activation_post", 1);
    file.push(info("a.decoder.conv_post.weight", &[1, 1, 7]));
    file.push(info("a.latents_mean", &[4]));
    file.push(info("a.latents_std", &[4]));
    file
}

#[test]
fn an_audio_decoder_is_read_from_its_checkpoint() {
    let decoder = CudaAudioDecoder::load(&decoder_file(), "a.").unwrap();
    let config = decoder.config();
    assert_eq!((config.latent_channels, config.latent_features, config.initial_channels), (4, 8, 128));
    assert_eq!((config.samples_per_latent(), SAMPLE_RATE), (800, 32000));
    assert_eq!(decoder.stages.len(), 7);
    assert!(!decoder.post.biased && decoder.pre.biased);
    let text = |file: &Vec<TensorInfo>| CudaAudioDecoder::load(file, "a.").err().unwrap().text();
    let change = |name: &str, shape: &[usize]| {
        let mut file = decoder_file();
        for tensor in file.iter_mut() {
            if tensor.name == name {
                tensor.shape = shape.to_vec();
            }
        }
        file
    };
    assert_eq!(text(&change("a.dec_in_proj.weight", &[8, 4])), "a.dec_in_proj.weight has shape [8, 4]");
    assert_eq!(
        text(&change("a.decoder.ups.2.0.weight", &[32, 16, 5])),
        "decoder.ups.2 does not match the H3 vocoder"
    );
    assert_eq!(
        text(&change("a.decoder.resblocks.4.convs2.1.weight", &[32, 32, 3])),
        "a.decoder.resblocks.4 does not have kernel size 7"
    );
    assert_eq!(
        text(&change("a.decoder.activation_post.upsample.filter", &[11])),
        "a.decoder.activation_post.upsample.filter has shape [11]"
    );
    let mut file = decoder_file();
    file.pop();
    assert_eq!(text(&file), "missing tensor a.latents_std");
}

#[test]
fn kernels_are_reordered() {
    // One output, two inputs and a kernel of three.
    let plain = Convolution { outputs: 1, inputs: 2, kernel: 3, biased: true };
    assert_eq!(plain.reordered(&vec![1, 2, 3, 4, 5, 6]), vec![1, 4, 2, 5, 3, 6]);
    let transposed = Convolution { outputs: 2, inputs: 1, kernel: 3, biased: true };
    assert_eq!(transposed.reordered_transposed(&vec![1, 2, 3, 4, 5, 6]), vec![1, 4, 2, 5, 3, 6]);
}

#[test]
fn a_latent_frame_gives_its_samples() {
    let decoder = CudaAudioDecoder::load(&decoder_file(), "a.").unwrap();
    let decoding = decoder.decode(&vec![4, 2, 3]).unwrap();
    assert_eq!((decoding.sequences, decoding.samples), (2, 2400));
    assert!(decoding.workspace.signal >= 2400 * 4);
    assert!(decoding.steps.contains(&AudioStep::Clamp { count: 4800 }));
    let posted = decoding.steps.iter().any(|step| {
        matches!(step, AudioStep::Activate { activation: AudioActivation::Post, length: 2400, .. })
    });
    assert!(posted);
    let out = decoding.steps.iter().any(|step| {
        matches!(step, AudioStep::Product { layer: AudioLayer::Post, output: Signal::Output, rows: 4800, .. })
    });
    assert!(out);
    let text = |shape: Vec<usize>| decoder.decode(&shape).err().unwrap().text();
    assert_eq!(text(vec![4, 2]), "latent shape [4, 2] is not [channels, stereo channels, frames]");
    assert_eq!(text(vec![4, 2, 0]), "latent shape [4, 2, 0] does not match the decoder");
    assert_eq!(text(vec![5, 2, 3]), "latent shape [5, 2, 3] does not match the decoder");
}

/// An encoder of one channel, which every block doubles.
fn encoder_file() -> Vec<TensorInfo> {
    let mut file = Vec::new();
    let linear = |file: &mut Vec<TensorInfo>, name: &str, outputs: usize, inputs: usize| {
        file.push(info(&format!("e.{name}.weight"), &[outputs, inputs]));
        file.push(info(&format!("e.{name}.bias"), &[outputs]));
    };
    convolution(&mut file, "e.encoder.block.0", &[2, 1, 7], 2);
    for (index, stride) in [2, 4, 4, 5, 5].into_iter().enumerate() {
        let name = format!("e.encoder.block.{}", index + 1);
        let channels = 2 << index;
        for unit in 0..3 {
            let unit = format!("{name}.block.{unit}.block");
            file.push(info(&format!("{unit}.0.alpha"), &[1, channels, 1]));
            file.push(info(&format!("{unit}.2.alpha"), &[1, channels, 1]));
            convolution(&mut file, &format!("{unit}.1"), &[channels, channels, 7], channels);
            convolution(&mut file, &format!("{unit}.3"), &[channels, channels, 1], channels);
        }
        file.push(info(&format!("{name}.block.3.alpha"), &[1, channels, 1]));
        convolution(
            &mut file,
            &format!("{name}.block.4"),
            &[2 * channels, channels, 2 * stride],
            2 * channels,
        );
    }
    file.push(info("e.encoder.block.6.alpha", &[1, 64, 1]));
    convolution(&mut file, "e.encoder.block.7", &[16, 64, 3], 16);
    file.push(info("e.pre_block.attn.qkv.weight", &[48, 16]));
    for name in ["q_bias", "zero_k_bias", "v_bias"] {
        file.push(info(&format!("e.pre_block.attn.{name}"), &[16]));
    }
    for (name, width) in [("norm1", 16), ("norm2", 4), ("norm3", 16), ("mlp.norm", 4)] {
        file.push(info(&format!("e.pre_block.{name}.weight"), &[width]));
        file.push(info(&format!("e.pre_block.{name}.bias"), &[width]));
    }
    linear(&mut file, "pre_block.attn.proj", 4, 16);
    linear(&mut file, "pre_block.proj", 4, 16);
    linear(&mut file, "pre_block.mlp.w0", 8, 4);
    linear(&mut file, "pre_block.mlp.w1", 8, 4);
    linear(&mut file, "pre_block.mlp.w2", 4, 8);
    convolution(&mut file, "e.mean_proj", &[4, 4, 1], 4);
    file.push(info("e.latents_mean", &[4]));
    file.push(info("e.latents_std", &[4]));
    file
}

#[test]
fn an_audio_encoder_is_read_from_its_checkpoint() {
    let encoder = CudaAudioEncoder::load(&encoder_file(), "e.").unwrap();
    assert_eq!((encoder.features, encoder.latent_channels, encoder.latents_std), (16, 4, 4));
    let strides: Vec<usize> = encoder.blocks.iter().map(|block| block.stride).collect();
    assert_eq!(strides.iter().product::<usize>(), 800);
    assert!(encoder.validate().is_ok());
    let text = |change: &dyn Fn(&mut CudaAudioEncoder)| {
        let mut encoder = CudaAudioEncoder::load(&encoder_file(), "e.").unwrap();
        change(&mut encoder);
        encoder.validate().unwrap_err().text()
    };
    assert_eq!(text(&|encoder| encoder.input.inputs = 2), "the audio encoder does not take a single channel");
    assert_eq!(
        text(&|encoder| encoder.blocks[1].downsample.kernel = 3),
        "the audio encoder's blocks do not match the H3 checkpoint"
    );
    assert_eq!(
        text(&|encoder| encoder.blocks[4].units[2].pointwise.kernel = 2),
        "the audio encoder's blocks do not match the H3 checkpoint"
    );
    assert_eq!(
        text(&|encoder| encoder.latents_mean = 5),
        "the audio encoder's head does not match the H3 checkpoint"
    );
    let mut file = encoder_file();
    file.retain(|tensor| tensor.name != "e.pre_block.attn.v_bias");
    assert_eq!(CudaAudioEncoder::load(&file, "e.").err().unwrap().text(), "missing tensor e.pre_block.attn.v_bias");
    assert_eq!(Linear::new(&vec![3], 3).unwrap_err().text(), "a linear layer has shape [3]");
    assert_eq!(Linear::new(&vec![3, 4], 5).unwrap_err().text(), "a linear layer of 3 outputs has 5 bias values");
}

#[test]
fn a_sound_is_padded_to_whole_frames() {
    assert_eq!(CudaAudioEncoder::latent_frames(1), 1);
    assert_eq!(CudaAudioEncoder::latent_frames(800), 1);
    assert_eq!(CudaAudioEncoder::latent_frames(801), 2);
    assert_eq!(padded_channel(&vec![1, 2, 3, 4], 1, 2, 4, 0), vec![3, 4, 0, 0]);
    let encoder = CudaAudioEncoder::load(&encoder_file(), "e.").unwrap();
    let encoding = encoder.encode(&vec![2, 801], 1 << 16).unwrap();
    assert_eq!((encoding.sequences, encoding.frames, encoding.padded), (2, 2, 1600));
    assert!(encoding.steps.contains(&SoundStep::Softmax { rows: 2, head_dim: 2 }));
    let heads = encoding.steps.iter().filter(|step| matches!(step, SoundStep::Scores { .. })).count();
    assert_eq!(heads, 8);
    let text = |shape: Vec<usize>| encoder.encode(&shape, 1 << 16).err().unwrap().text();
    assert_eq!(text(vec![2]), "a waveform of shape [2] is not [stereo channels, samples]");
    assert_eq!(text(vec![2, 0]), "the waveform is empty");
}

#[test]
fn layers_of_the_audio_decoder_have_their_names() {
    assert_eq!(AudioLayer::Upsample { stage: 4 }.name(), "decoder.ups.4.0");
    assert_eq!(AudioLayer::Dilated { stage: 2, block: 1, unit: 0 }.name(), "decoder.resblocks.7.convs1.0");
    assert_eq!(AudioLayer::Plain { stage: 0, block: 2, unit: 1 }.name(), "decoder.resblocks.2.convs2.1");
    assert_eq!(
        AudioActivation::Block { stage: 6, block: 2, index: 5 }.name(),
        "decoder.resblocks.20.activations.5"
    );
    assert_eq!(AudioActivation::Post.name(), "decoder.activation_post");
}

#[test]
fn layers_of_the_audio_encoder_have_their_names() {
    assert_eq!(SoundLayer::Dilated { block: 0, unit: 2 }.name(), "encoder.block.1.block.2.block.1");
    assert_eq!(SoundLayer::Pointwise { block: 4, unit: 1 }.name(), "encoder.block.5.block.1.block.3");
    assert_eq!(SoundLayer::Downsample { block: 2 }.name(), "encoder.block.3.block.4");
    assert_eq!(Snake::Before { block: 0, unit: 0 }.name(), "encoder.block.1.block.0.block.0");
    assert_eq!(Snake::Between { block: 1, unit: 0 }.name(), "encoder.block.2.block.0.block.2");
    assert_eq!(Snake::Block { block: 1 }.name(), "encoder.block.2.block.3");
    assert_eq!(Snake::Post.name(), "encoder.block.6");
    assert_eq!(HeadNorm::Mlp.name(), "pre_block.mlp.norm");
    assert_eq!(HeadLinear::AttentionProjection.name(), "pre_block.attn.proj");
}
