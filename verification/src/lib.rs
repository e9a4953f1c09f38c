//! The host side of the mmh3 inference engine: what the CUDA backend, the MP4 demuxer and the NVDEC
//! decoder decide, compute and check before and after a device or a file is touched.
//!
//! Kernel launches, file reads and floating point live outside this library. What they are handed
//! (sizes, offsets, launch plans, read plans, error messages) is computed here and proved.

pub mod algorithms;
pub mod arithmetic;
pub mod attention;
pub mod audio_encoder;
pub mod audio_flow;
pub mod audio_vae;
pub mod bench;
pub mod block;
pub mod block_flow;
pub mod call;
pub mod call_flow;
pub mod checkpoint;
pub mod device;
pub mod dit;
pub mod exchange;
pub mod fault;
pub mod film_flow;
pub mod forward;
pub mod gemm;
pub mod layout;
pub mod linear_flow;
pub mod loader;
pub mod lora;
pub mod model;
pub mod mp4;
pub mod named;
pub mod nvdec;
pub mod nvfp4;
pub mod parts;
pub mod plan;
pub mod regions;
pub mod shard;
pub mod share_flow;
pub mod sound;
pub mod sound_flow;
pub mod streaming;
pub mod switch;
pub mod text;
pub mod text_encoder;
pub mod text_flow;
pub mod tile;
pub mod tiling;
pub mod vae;
pub mod vae_flow;
pub mod value;
pub mod video_checkpoint;
pub mod video_encoder;
pub mod video_flow;
pub mod vision;
pub mod vision_flow;
pub mod walk;
pub mod whole;
pub mod workspace;

pub use device::{
    allocated_bytes, check, current_device, free_bytes, memory_info_on, set_allocation_limit, set_device,
    Allocations, CudaError, DeviceBuffer, DeviceInfo, INVALID_DEVICE, MAX_DEVICES, OUT_OF_MEMORY,
};
