use mmh3::arithmetic::{greatest, least, rounded_up, units};
use mmh3::bench::{GemmKind, MmaKind};
use mmh3::checkpoint::{count_elements, count_numbered, find, has_elements, need, TensorInfo};
use mmh3::device::{Allocations, CudaError, DeviceBuffer};
use mmh3::layout::{channel_major, time_major};
use mmh3::loader::LoadError;
use mmh3::model::{
    adapter_down, check_quantization, i32_bytes, int8_linear, linear, linear_quantized, linear_quantized_range, padded,
    padded_rows, AdapterPart, DType, DeviceTensor, DeviceTensors, Error, Layer, LinearKind, LinearStep, LowRank,
    Quantization,
};
use mmh3::named::Named;
use mmh3::shard::Run;
use mmh3::text;

fn tensor(allocations: &mut Allocations, name: &str, dtype: DType, shape: &[usize]) -> DeviceTensor {
    DeviceTensor {
        name: name.to_owned(),
        dtype,
        shape: shape.to_vec(),
        buffer: DeviceBuffer::new(allocations, 0, 0x1000, 64),
    }
}

#[test]
fn tensors_are_found_by_their_names() {
    let mut allocations = Allocations::new();
    let mut tensors = DeviceTensors::new();
    assert!(tensors.insert(tensor(&mut allocations, "a.weight", DType::I8, &[2, 256])).is_none());
    assert!(tensors.insert(tensor(&mut allocations, "b.weight", DType::Bf16, &[3, 4])).is_none());
    let replaced = tensors.insert(tensor(&mut allocations, "b.weight", DType::F32, &[3, 5])).unwrap();
    assert_eq!(replaced.shape, vec![3, 4]);
    assert!(tensors.is_int8("a") && !tensors.is_int8("b") && !tensors.is_int8("c"));
    assert_eq!(tensors.get("c").err().unwrap().text(), "missing tensor c");
    assert_eq!(tensors.optional("b.weight").unwrap().shape, vec![3, 5]);
    let layer = tensors.layer("b").unwrap();
    assert_eq!((layer.outputs, layer.features, layer.scaled, layer.bias), (3, 5, false, false));
    assert!(tensors.remove("b.weight").is_some());
    assert!(tensors.remove("b.weight").is_none());
    assert!(tensors.optional("a.weight").is_some());
}

#[test]
fn int8_layers_are_interleaved_with_their_scales() {
    let mut allocations = Allocations::new();
    let mut tensors = DeviceTensors::new();
    for (name, dtype) in [("b.0.fc.weight", DType::I8), ("b.0.fc.weight_scale", DType::F32), ("b.1.fc.weight", DType::F16)]
    {
        tensors.insert(tensor(&mut allocations, name, dtype, &[8, 256]));
    }
    assert_eq!(tensors.interleaved("b.", 2, ".fc", false).unwrap(), vec!["b.0.fc.weight", "b.0.fc.weight_scale"]);
    assert_eq!(tensors.interleaved("b.", 2, ".fc", true).unwrap_err().text(), "missing tensor b.0.fc.bias");
    assert!(tensors.interleaved("c.", 2, ".fc", true).unwrap().is_empty());
}

fn layer(dtype: DType) -> Layer {
    Layer { dtype, outputs: 512, features: 768, scaled: true, bias: false }
}

fn low(columns: Option<usize>, rank: usize) -> LowRank {
    LowRank { columns, rank, inputs: 768, outputs: 512 }
}

#[test]
fn an_int8_layer_quantizes_its_input() {
    let steps = linear("l", Some(layer(DType::I8)), 100, Some(low(Some(128), 64))).unwrap();
    assert_eq!(
        steps,
        vec![
            LinearStep::RotateQuantize { rows: 100, features: 768 },
            LinearStep::QuantizedDown { config: 0, rows: 100, columns: 128, inputs: 768 },
            LinearStep::Int8 {
                config: 1,
                rows: 100,
                first: 0,
                outputs: 512,
                features: 768,
                stride: 0,
                swiglu: false,
                adapter: Some(AdapterPart { rank: 64, stride: 128 }),
            },
        ]
    );
    let quantized = linear_quantized("l", Some(layer(DType::I8)), 100, None, true).unwrap();
    assert_eq!(quantized.len(), 1);
    assert!(matches!(quantized[0], LinearStep::Int8 { swiglu: true, adapter: None, .. }));
}

#[test]
fn other_layers_run_through_cublaslt() {
    let steps = linear("l", Some(layer(DType::Bf16)), 3, Some(low(None, 16))).unwrap();
    assert_eq!(steps.len(), 3);
    assert_eq!(
        steps[0],
        LinearStep::Product { kind: LinearKind::Bf16, rows: 3, outputs: 512, features: 768, bias: false }
    );
    assert_eq!(steps[1], LinearStep::Down { rows: 3, rank: 16, inputs: 768 });
    assert_eq!(steps[2], LinearStep::Up { rows: 3, outputs: 512, rank: 16 });
    assert_eq!((LinearKind::Bf16.code(), LinearKind::F32.code(), LinearKind::F16.code()), (0, 1, 2));
}

#[test]
fn layers_say_why_they_do_not_run() {
    let text = |result: Result<Vec<LinearStep>, Error>| result.unwrap_err().text();
    assert_eq!(text(linear("l", None, 1, None)), "missing tensor l.weight");
    assert_eq!(text(linear("l", Some(layer(DType::F64)), 1, None)), "l: unsupported weight dtype F64");
    let unscaled = Layer { scaled: false, ..layer(DType::I8) };
    assert_eq!(text(linear("l", Some(unscaled), 1, None)), "missing tensor l.weight_scale");
    let odd = Layer { features: 700, ..layer(DType::I8) };
    assert_eq!(text(int8_linear("l", &odd, 1, None, false, false)), "l: unsupported INT8 layer");
    assert_eq!(
        text(linear("l", Some(layer(DType::I8)), 1, Some(low(Some(128), 60)))),
        "l: the adapter rank must be a multiple of 64"
    );
    assert_eq!(
        adapter_down("l", Some(low(None, 64)), 1).unwrap_err().text(),
        "the adapter of an INT8 layer needs a quantized down projection"
    );
    assert_eq!(
        text(linear("l", Some(layer(DType::F32)), 1, Some(low(Some(128), 64)))),
        "a quantized down projection needs an INT8 layer"
    );
}

#[test]
fn a_range_of_outputs_keeps_its_stride() {
    let columns = Run { start: 128, end: 384 };
    let step = linear_quantized_range("l", Some(layer(DType::I8)), 9, columns, 512, None).unwrap();
    assert_eq!(
        step,
        LinearStep::Int8 {
            config: 1,
            rows: 9,
            first: 128,
            outputs: 256,
            features: 768,
            stride: 512,
            swiglu: false,
            adapter: None,
        }
    );
}

#[test]
fn checks_how_a_layer_is_quantized() {
    let read = |format: &str, convrot: bool, group: u64| Quantization::Read {
        text: "{}".to_owned(),
        format: Some(format.to_owned()),
        convrot: Some(convrot),
        group: Some(group),
    };
    assert!(check_quantization("l", &read("int8_tensorwise", true, 256)).is_ok());
    assert!(check_quantization("l", &read("int8_tensorwise", true, 128)).is_err());
    assert!(check_quantization("l", &read("fp8", true, 256)).is_err());
    assert_eq!(check_quantization("l", &Quantization::NotText).unwrap_err().text(), "l is not UTF-8");
    assert_eq!(
        check_quantization("l", &Quantization::Unreadable("end of text".to_owned())).unwrap_err().text(),
        "l: end of text"
    );
}

#[test]
fn pads_with_zeros() {
    assert_eq!(padded(&[1, 2], 4), vec![1, 2, 0, 0]);
    assert_eq!(padded(&[1, 2, 3], 2), vec![1, 2]);
    assert_eq!(padded_rows(&[1, 2, 3, 4], 2, 2, 3), vec![1, 2, 0, 3, 4, 0]);
    assert_eq!(i32_bytes(&vec![1, 0x0102_0304]), vec![1, 0, 0, 0, 4, 3, 2, 1]);
    assert_eq!((LowRank::padded_columns(64), LowRank::padded_columns(129)), (128, 256));
    assert_eq!((low(Some(128), 64).scratch_columns(), low(None, 64).scratch_columns()), (128, 64));
}

#[test]
fn errors_are_lines_of_text() {
    let cuda = || CudaError { code: 700, message: "illegal address".to_owned() };
    assert_eq!(Error::Cuda(cuda()).text(), "CUDA error 700: illegal address");
    assert!(matches!(Error::of_load(LoadError::Cuda(cuda())), Error::Cuda(_)));
    assert_eq!(Error::Model("no".to_owned()).text(), "no");
}

fn info(name: &str, shape: &[usize]) -> TensorInfo {
    TensorInfo { name: name.to_owned(), dtype: DType::F32, shape: shape.to_vec() }
}

#[test]
fn a_file_is_looked_up_by_name() {
    let file = vec![info("b.0.w", &[2, 3]), info("b.1.w", &[0, 5]), info("b.3.w", &[])];
    assert_eq!(find(&file, &"b.1.w".to_owned()), Some(1));
    assert_eq!(find(&file, &"b.2.w".to_owned()), None);
    assert_eq!(count_numbered(&file, "b.", ".w"), 2);
    assert_eq!(count_numbered(&file, "c.", ".w"), 0);
    assert_eq!(need(&file, "b.2.w".to_owned()).unwrap_err().text(), "missing tensor b.2.w");
    assert_eq!((count_elements(&vec![2, 3]), count_elements(&vec![0, 5]), count_elements(&vec![])), (6, 0, 1));
    assert!(has_elements(&vec![usize::MAX, 2, 0], 0));
    assert!(!has_elements(&vec![usize::MAX, 2], 5));
}

#[test]
fn a_table_keeps_one_value_a_name() {
    let mut table: Named<usize> = Named::new();
    assert!(table.is_empty());
    table.insert("a".to_owned(), 1);
    table.insert("b".to_owned(), 2);
    table.insert("a".to_owned(), 3);
    assert_eq!((table.len(), table.get("a"), table.get("b"), table.get("c")), (2, Some(3), Some(2), None));
    assert!(table.contains("b") && !table.contains("c"));
}

#[test]
fn arrays_turn_and_turn_back() {
    // Two channels, one sequence, three frames.
    let data = vec![1, 2, 3, 4, 5, 6];
    let turned = time_major(&data, 2, 1, 3);
    assert_eq!(turned, vec![1, 4, 2, 5, 3, 6]);
    assert_eq!(channel_major(&turned, 2, 1, 3), data);
    let wide: Vec<u32> = (0..24).collect();
    let back = channel_major(&time_major(&wide, 2, 3, 4), 2, 3, 4);
    assert_eq!(back, wide);
    assert_eq!(time_major(&wide, 2, 3, 4)[(1 * 4 + 2) * 2 + 1], wide[(1 * 3 + 1) * 4 + 2]);
}

#[test]
fn numbers_are_written_out() {
    let mut line = String::new();
    text::push_size(&mut line, 0);
    text::push_signed(&mut line, i64::MIN);
    text::push_decimal(&mut line, u64::MAX);
    text::push_hex(&mut line, 0xab, 4);
    text::push_list(&mut line, &vec![1, 20, 300]);
    text::push_list(&mut line, &vec![]);
    assert_eq!(line, format!("0{}{}00ab[1, 20, 300][]", i64::MIN, u64::MAX));
    assert!(text::comes_before("a", "b") && text::comes_before("a", "aa") && !text::comes_before("b", "a"));
    assert_eq!(text::without_start("abc", "ab"), Some("c".to_owned()));
    assert_eq!(text::without_end("abc", "ab"), None);
    assert!(text::ends_with("abc", "bc"));
}

#[test]
fn rounds_to_whole_units() {
    assert_eq!((units(0, 5), units(1, 5), units(5, 5), units(6, 5)), (0, 1, 1, 2));
    assert_eq!((rounded_up(0, 8), rounded_up(9, 8)), (0, 16));
    assert_eq!((least(3, 4), greatest(3, 4)), (3, 4));
}

#[test]
fn kinds_of_products_have_names() {
    for kind in GemmKind::all() {
        assert_eq!(GemmKind::from_name(kind.name()), Some(kind));
    }
    assert_eq!(GemmKind::from_name("fp64"), None);
    assert_eq!(GemmKind::Int8Mmh3.cublaslt_code(), None);
    assert_eq!(GemmKind::Bf16.cublaslt_code(), Some(0));
    let codes: Vec<i32> = MmaKind::all().iter().map(|kind| kind.code()).collect();
    assert_eq!(codes, vec![0, 1, 2, 3, 4]);
    assert_eq!(MmaKind::Bf16AccumulateF32.instruction(), "m16n8k16 bf16 → f32");
    assert_eq!(MmaKind::Fp8AccumulateF16.instruction(), "m16n8k32 e4m3 → f16");
}
