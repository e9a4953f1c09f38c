# mmh3

A CUDA backend for the H3 video and audio models whose decisions are verified with Verus: which kernels run, in
which order, on which part of which buffer, and what is refused before anything runs.

- `src/` is the library. It holds no device memory and calls no kernel. A model's call is a plan, a list of launches
  with their extents, and every plan is proved to stay inside the buffers it is given.
- `app/` is the backend around it. It allocates and frees device memory, launches the kernels of a plan, reads files,
  runs the threads and computes in floating point. It is ordinary Rust.
- `tests/` runs the library on concrete values.

## Modules of the library

| Module | What it holds |
| --- | --- |
| `device` | the memory of the devices, what a process holds of it and its limit |
| `loader`, `streaming` | reading weights: once into their buffers, or again each time through two regions |
| `checkpoint`, `named`, `model` | tensors of files and of devices, and linear layers over them |
| `gemm`, `nvfp4`, `attention` | the extents of GEMMs, of NVFP4 layers and of attention |
| `algorithms`, `bench` | the files that keep chosen GEMM algorithms, and what is measured |
| `block`, `workspace`, `dit`, `forward`, `call`, `lora`, `switch` | the diffusion transformer, its buffers, one call of it, its adapters and its switch to NVFP4 |
| `shard`, `exchange`, `regions`, `parts`, `whole` | one step shared out over machines, and over one alone |
| `text_encoder`, `vision` | the text encoder and the vision tower |
| `vae`, `video_encoder`, `tile`, `tiling`, `video_checkpoint` | decoding and encoding video tile by tile |
| `audio_vae`, `audio_encoder`, `sound`, `layout` | decoding and encoding sound |
| `mp4`, `walk`, `nvdec` | MP4 files and the decoding of their frames |
| `arithmetic`, `text`, `fault`, `plan` | arithmetic, text, errors and lists of launches |
