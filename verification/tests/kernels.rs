use mmh3::attention;
use mmh3::attention::{
    dense_covered, fused_layout, head_norm_fits, routed, AttentionInputs, AttentionOffsets, AttentionPrecision, Element,
    QuantizedWorkspace, SparseWorkspace,
};
use mmh3::gemm::{
    int8, int8_config, interleave_swiglu_rows, interleaved_row, merge_low_rank, rotate_quantize, Adapter, Output,
};
use mmh3::nvfp4::{
    adapter_fits, linear_fits, scale_bytes, Columns, ConversionStep, Margin, Nvfp4Activations, Nvfp4Input, Nvfp4Scale,
    Nvfp4Step, Nvfp4Weight,
};

#[test]
fn interleaves_four_gates_with_their_up_projections() {
    let order: Vec<usize> = (0..16).map(|row| interleaved_row(row, 16)).collect();
    assert_eq!(order, vec![0, 1, 2, 3, 8, 9, 10, 11, 4, 5, 6, 7, 12, 13, 14, 15]);
    assert_eq!(interleave_swiglu_rows(160, 16, 10), Some(160));
    assert_eq!(interleave_swiglu_rows(159, 16, 10), None);
}

#[test]
fn picks_the_tile_shape_of_a_product() {
    assert_eq!(int8_config(255, 512, 100), 1);
    assert_eq!(int8_config(256, 512, 100), 0);
    assert_eq!(int8_config(256, 512, 8193), 1);
    assert_eq!(int8_config(255, 500, 8193), 0);
}

#[test]
fn checks_the_operands_of_an_int8_product() {
    let output = Output { buffer: 3 * 4 * 2, half: false, bias: Some(16), swiglu: false };
    assert!(int8(3 * 8, 4 * 8, 12, 16, output, 3, 4, 8, None));
    assert!(!int8(3 * 8 - 1, 4 * 8, 12, 16, output, 3, 4, 8, None));
    assert!(!int8(3 * 8, 4 * 8, 12, 16, Output { bias: Some(15), ..output }, 3, 4, 8, None));
    assert!(int8(3 * 8, 4 * 8, 12, 16, Output { buffer: 12, swiglu: true, ..output }, 3, 4, 8, None));
    let adapter = Adapter { down: 3 * 6 * 2, up: 4 * 5 * 2, rank: 5, down_stride: 6 };
    assert!(int8(3 * 8, 4 * 8, 12, 16, output, 3, 4, 8, Some(adapter)));
    assert!(!int8(3 * 8, 4 * 8, 12, 16, output, 3, 4, 8, Some(Adapter { down_stride: 4, ..adapter })));
    assert!(rotate_quantize(2 * 3 * 2, 6, 8, 2, 3));
    assert!(!rotate_quantize(2 * 3 * 2, 6, 7, 2, 3));
    assert!(merge_low_rank(6, 8, 2 * 5 * 4, 5 * 3 * 4, 2, 3, 5));
    assert!(!merge_low_rank(6, 8, 2 * 5 * 4, 5 * 3 * 4 - 1, 2, 3, 5));
}

#[test]
fn pads_the_rows_of_block_scales() {
    assert_eq!(scale_bytes(1, 64), 128 * 4);
    assert_eq!(scale_bytes(129, 64), 256 * 4);
}

#[test]
fn an_adapter_costs_a_whole_tile() {
    assert_eq!(Columns::Inputs.count(512), Some(512));
    assert_eq!(Columns::Inputs.count(500), None);
    assert_eq!(Columns::Zeros(768).count(512), Some(768));
    assert_eq!(Columns::Zeros(256).count(512), None);
    assert_eq!(Columns::Adapter(64).count(512), Some(768));
    let weight = Nvfp4Weight::from_int8_with(256 * 512, 256 * 4, 256, 512, Columns::Adapter(64)).unwrap();
    assert_eq!((weight.columns, weight.adapter_rank()), (768, 64));
    assert_eq!((weight.bytes().values, weight.bytes().scales), (256 * 768 / 2, 256 * 768 / 16));
    let down = weight.down().unwrap();
    assert_eq!((down.outputs, down.features, down.columns, down.rank), (64, 512, 768, 0));
    assert_eq!(Nvfp4Weight::from_int8_with(256 * 512 - 1, 256 * 4, 256, 512, Columns::Inputs), None);
    assert_eq!(Nvfp4Weight::from_int8_with(256 * 512, 256 * 4, 256, 512, Columns::Adapter(63)), None);
    assert!(Nvfp4Weight::from_int8(256 * 512, 1024, 256, 512).unwrap().down().is_none());
}

#[test]
fn a_conversion_brings_the_up_projection_behind_the_inputs() {
    let weight = Nvfp4Weight::from_int8_with(256 * 512, 256 * 4, 256, 512, Columns::Adapter(64)).unwrap();
    let steps = weight.conversion(true);
    assert_eq!(steps.len(), 3);
    assert_eq!(
        steps[1],
        ConversionStep::Up { outputs: 256, rank: 64, offset: 512, columns: 768, deinterleave: true }
    );
    assert_eq!(
        steps[2],
        ConversionStep::Weights { down: true, outputs: 64, features: 512, columns: 768, deinterleave: false }
    );
    assert!(adapter_fits(64 * 512, 256, 256 * 64 * 2, 64, 256, 512));
    assert!(!adapter_fits(63 * 512, 252, 256 * 63 * 2, 63, 256, 512));
}

#[test]
fn a_call_takes_the_scale_that_the_one_before_left() {
    let mut scale = Nvfp4Scale::new();
    assert!(!scale.is_calibrated());
    let first = scale.next_call();
    assert_eq!((first.reference, first.margin, first.observed), (0, Margin::Exact, None));
    assert!(scale.is_calibrated());
    let second = scale.next_call();
    assert_eq!((second.reference, second.margin, second.observed), (0, Margin::Delayed, Some(1)));
    let third = scale.next_call();
    assert_eq!((third.reference, third.observed), (1, Some(0)));
}

#[test]
fn a_product_with_an_adapter_fills_its_columns_first() {
    let weight = Nvfp4Weight::from_int8_with(256 * 512, 256 * 4, 256, 512, Columns::Adapter(64)).unwrap();
    let activations = Nvfp4Activations::new(200, 768, 64);
    let bytes = activations.bytes();
    assert_eq!((bytes.values, bytes.scales, bytes.scratch, bytes.adapter), (76800, 256 * 48, 12, 25600));
    let steps = activations.gemm(&weight, 200).unwrap();
    assert_eq!(steps.len(), 5);
    assert_eq!(steps[2], Nvfp4Step::QuantizeColumns { rows: 200, count: 64, offset: 512, columns: 768 });
    assert_eq!(steps[4], Nvfp4Step::Product { down: false, rows: 200, outputs: 256, columns: 768 });
    assert!(activations.gemm(&weight, 201).is_none());
    assert!(Nvfp4Activations::new(200, 768, 0).gemm(&weight, 200).is_none());
    assert!(linear_fits(Nvfp4Input::Rows, &weight, 200 * 512 * 2, 200 * 256 * 2, 200));
    assert!(!linear_fits(Nvfp4Input::SwiGlu, &weight, 200 * 512 * 2, 200 * 256 * 2, 200));
}

#[test]
fn sizes_the_scratch_of_attention() {
    let quantized = QuantizedWorkspace::new(65, 2);
    assert_eq!((quantized.query, quantized.value), (65 * 2 * 128, 128 * 2 * 128));
    assert_eq!((quantized.query_scales, quantized.value_scales), (16, 8));
    assert!(quantized.covered(65 * 2 * 128 * 6, 65 * 2 * 128 * 2));
    assert!(!quantized.covered(65 * 2 * 128 * 6 - 1, 65 * 2 * 128 * 2));
    let sparse = SparseWorkspace::new(65, 2);
    assert_eq!((sparse.tokens(), sparse.blocks, sparse.triples()), (65, 2, 8));
    assert_eq!((sparse.per_block, sparse.per_head, sparse.row_offsets), (2 * 2 * 512, 1024, 520));
    assert_eq!((sparse.routes, sparse.counts), (16, 16));
    assert!(sparse.quantized.is_none());
    assert_eq!(
        SparseWorkspace::with_precision(65, 2, AttentionPrecision::Int8Fp8).quantized,
        Some(quantized)
    );
    assert_eq!(routed(&vec![1, 0, 5]), 6);
    assert_eq!(routed(&vec![-1]), u64::MAX);
}

#[test]
fn attention_stays_inside_its_buffers() {
    let layout = fused_layout(256);
    assert_eq!(layout.token_stride, [768, 768, 768, 256]);
    let offsets = AttentionOffsets { query: 0, key: 256, value: 512, output: 0 };
    // Three tokens of two heads of 128.
    assert!(attention::attention(3 * 768 * 2, 3 * 256 * 2, offsets, 3, 2, 1, 128, &layout));
    assert!(!attention::attention(3 * 768 * 2 - 1, 3 * 256 * 2, offsets, 3, 2, 1, 128, &layout));
    assert!(!attention::attention(3 * 768 * 2, 3 * 256 * 2 - 1, offsets, 3, 2, 1, 128, &layout));
    assert!(dense_covered(3 * 3 * 256 * 2, 3 * 256 * 2, 3, 2));
    assert!(!dense_covered(3 * 3 * 256 * 2, 3 * 256 * 2 - 1, 3, 2));
    assert_eq!((Element::Bf16.code(), Element::F16.code()), (0, 1));
    assert_eq!((AttentionInputs::Raw.ready(), AttentionInputs::Prepared.ready()), (0, 1));
    assert!(head_norm_fits(3 * 3 * 256 * 2, 256, 256, Some(3 * 32 * 4), 32, 3, 2));
    assert!(!head_norm_fits(3 * 3 * 256 * 2, 256, 255, Some(3 * 32 * 4), 32, 3, 2));
}
