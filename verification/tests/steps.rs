use onnx_vulkan_core::host_ops::{BinOp, CmpOp, FLOAT, INT32, INT64, UINT8};
use onnx_vulkan_core::interp::dispatch::{operator, work, Limits, Operator};
use onnx_vulkan_core::interp::reshape::{
    flatten, meta_reshape_out, resolve_reshape, shape_op, squeeze, unsqueeze,
};
use onnx_vulkan_core::interp::sampling::PoolKind;
use onnx_vulkan_core::interp::work::Work;
use onnx_vulkan_core::plan::{Command, Kernel, ReduceKind, Slot, Storage, UnaryOp};
use onnx_vulkan_core::{
    is_implemented, is_implemented_node, AttrValue, DeviceBuffer, DeviceTensor, Error, ExecutionEnv,
    GraphIr, HostTensor, InitializerIr, KernelCache, NameMap, NodeIr, Tensor,
};

fn node(op: &str, inputs: &[&str]) -> NodeIr {
    NodeIr {
        domain: String::new(),
        op: op.into(),
        since_version: 13,
        name: op.into(),
        inputs: inputs.iter().map(|s| s.to_string()).collect(),
        outputs: vec!["y".into()],
        attrs: NameMap::new(),
    }
}

fn with(mut n: NodeIr, name: &str, v: AttrValue) -> NodeIr {
    n.attrs.insert(name.into(), v);
    n
}

fn device(dtype: i32, shape: &[i64]) -> Tensor {
    Tensor::Device(DeviceTensor {
        dtype,
        shape: shape.to_vec(),
        elem_count: shape.iter().product::<i64>() as usize,
        buf: DeviceBuffer::Owned(1),
    })
}

fn host(shape: &[i64], v: &[i64]) -> Tensor {
    Tensor::Host(HostTensor::from_i64(shape.to_vec(), v))
}

fn floats(shape: &[i64], v: &[f32]) -> HostTensor {
    let bits: Vec<u32> = v.iter().map(|x| x.to_bits()).collect();
    HostTensor::from_f32(shape.to_vec(), &bits)
}

const LIMITS: Limits = Limits { tile: 16, max_context: 100 };

fn needs(values: Vec<(&str, Tensor)>, n: &NodeIr) -> Result<Work, Error> {
    let none = NameMap::new();
    let mut env = ExecutionEnv::new(&none);
    for (name, t) in values {
        env.set(name, t);
    }
    work(&env, &KernelCache::new(), &NameMap::new(), n, LIMITS)
}

fn ints(w: Work) -> Vec<i64> {
    let Work::Results(v) = w else { panic!("the results are there") };
    v[0].to_i64().unwrap()
}

// --- which nodes run --------------------------------------------------------------------

#[test]
fn names_belong_to_domains() {
    let mut n = node("MatMulNBits", &["a", "b", "c"]);
    assert!(!is_implemented_node(&n));
    n.domain = "com.microsoft".into();
    assert!(!is_implemented_node(&n));
    n = with(n, "bits", AttrValue::Int(4));
    n = with(n, "block_size", AttrValue::Int(32));
    assert!(is_implemented_node(&n));
    n.domain = "com.example".into();
    assert!(!is_implemented_node(&n));
    let mut add = node("Add", &["a", "b"]);
    assert!(is_implemented_node(&add) && is_implemented("Add"));
    add.domain = "com.microsoft".into();
    assert!(!is_implemented_node(&add));
    assert!(!is_implemented("LSTM"));
}

#[test]
fn some_modes_do_not_run() {
    let s = |v: &str| AttrValue::String(v.into());
    assert!(is_implemented_node(&node("Resize", &["x"])));
    assert!(!is_implemented_node(&with(node("Resize", &["x"]), "mode", s("area"))));
    assert!(!is_implemented_node(&with(node("Resize", &["x"]), "exclude_outside", AttrValue::Int(1))));
    assert!(!is_implemented_node(&with(node("MaxPool", &["x"]), "ceil_mode", AttrValue::Int(1))));
    assert!(!is_implemented_node(&node("ReduceSum", &["x"])));
    let one = with(node("ReduceSum", &["x"]), "axes", AttrValue::Ints(vec![1]));
    assert!(is_implemented_node(&one));
    assert!(!is_implemented_node(&with(node("ScatterND", &["x"]), "reduction", s("add"))));
    assert!(!is_implemented_node(&with(node("ConvTranspose", &["x"]), "auto_pad", s("SAME_UPPER"))));
    let shaped = with(node("ConvTranspose", &["x"]), "output_shape", AttrValue::Ints(vec![1]));
    assert!(!is_implemented_node(&shaped));
    assert!(!is_implemented_node(&with(node("GridSample", &["x"]), "mode", s("nearest"))));
    assert!(!is_implemented_node(&with(node("Gelu", &["x"]), "approximate", s("fast"))));
}

#[test]
fn both_branches_have_to_run() {
    let graph = |op: &str| {
        AttrValue::Graph(Box::new(GraphIr {
            nodes: vec![node(op, &["x"])],
            initializers: NameMap::new(),
            inputs: vec![],
            outputs: vec!["y".into()],
        }))
    };
    let n = with(node("If", &["c"]), "then_branch", graph("Relu"));
    assert!(!is_implemented_node(&n));
    let ok = with(n, "else_branch", graph("Exp"));
    assert!(is_implemented_node(&ok));
    let bad = with(ok, "else_branch", graph("LSTM"));
    assert!(!is_implemented_node(&bad));
}

#[test]
fn every_operator_that_runs_is_known() {
    let names = [
        "Sigmoid", "Relu", "Softmax", "LayerNormalization", "Cast", "Mul", "Add", "Sub", "Div",
        "Shape", "Reshape", "Unsqueeze", "Squeeze", "Transpose", "Concat", "DynamicQuantizeLinear",
        "MatMulInteger", "MatMul", "Gather", "Slice", "Where", "Conv", "ConvInteger",
        "ConvTranspose", "Mod", "QuantizeLinear", "DequantizeLinear", "Pad", "Split", "Floor",
        "Not", "And", "Equal", "Less", "Greater", "LessOrEqual", "Identity", "BatchNormalization",
        "SimplifiedLayerNormalization", "If", "Gelu", "GatherElements", "ScatterND", "TopK",
        "ConstantOfShape", "Expand", "Range", "Tile", "Constant", "MaxPool", "AveragePool",
        "GlobalAveragePool", "ReduceMean", "ReduceSum", "ReduceMax", "ReduceMin", "Flatten",
        "LeakyRelu", "CumSum", "GridSample", "Gemm", "Resize", "Clip", "Erf", "Neg", "Exp", "Log",
        "Sqrt", "Abs", "Tanh", "Sin", "Cos", "Reciprocal", "Pow", "Min", "Max",
    ];
    for name in names {
        assert!(is_implemented(name));
        assert!(operator(&node(name, &[])).is_some());
    }
    assert_eq!(operator(&node("ReduceMax", &[])), Some(Operator::Reduce(ReduceKind::Max)));
    assert_eq!(operator(&node("AveragePool", &[])), Some(Operator::Pool(PoolKind::Average)));
    assert_eq!(operator(&node("LessOrEqual", &[])), Some(Operator::Compare(CmpOp::LessOrEqual)));
    assert_eq!(operator(&node("Tanh", &[])), Some(Operator::Unary(UnaryOp::Tanh)));
    assert_eq!(operator(&node("Pow", &[])), Some(Operator::Binary(BinOp::Pow)));
    assert_eq!(operator(&node("GroupQueryAttention", &[])), None);
    let mut n = node("GroupQueryAttention", &[]);
    n.domain = "com.microsoft".into();
    assert_eq!(operator(&n), Some(Operator::Attention));
}

#[test]
fn an_unknown_operator_is_refused() {
    assert!(matches!(needs(vec![], &node("LSTM", &["x"])), Err(Error::Backend(_))));
}

// --- what a node asks for ---------------------------------------------------------------

#[test]
fn a_node_asks_for_its_input_and_is_asked_again() {
    let n = node("Relu", &["x"]);
    assert_eq!(needs(vec![("x", Tensor::Host(floats(&[2], &[1.0, 2.0])))], &n).unwrap(), Work::Place(0, true));
    let Work::Plan(p) = needs(vec![("x", device(FLOAT, &[2]))], &n).unwrap() else {
        panic!("the device runs it")
    };
    assert_eq!(p.outputs[0].shape, vec![2]);
    assert!(needs(vec![], &node("Relu", &[])).is_err());
}

#[test]
fn inputs_on_the_device_are_read_back_for_the_host() {
    let n = node("Floor", &["x"]);
    let none = NameMap::new();
    let mut env = ExecutionEnv::new(&none);
    env.set("x", device(FLOAT, &[2]));
    let mut fetched = NameMap::new();
    let cache = KernelCache::new();
    assert_eq!(work(&env, &cache, &fetched, &n, LIMITS).unwrap(), Work::Fetch(0));
    fetched.insert("x".to_string(), floats(&[2], &[1.5, -1.5]));
    let Work::Results(v) = work(&env, &cache, &fetched, &n, LIMITS).unwrap() else {
        panic!("the results are there")
    };
    assert_eq!(v, vec![floats(&[2], &[1.0, -2.0])]);
}

#[test]
fn small_numbers_stay_on_the_host() {
    let n = node("Add", &["a", "b"]);
    let a = || Tensor::Host(floats(&[2], &[1.0, 2.0]));
    let w = needs(vec![("a", a()), ("b", a())], &n).unwrap();
    assert!(matches!(w, Work::Arithmetic(BinOp::Add, _, _)));
    let w = needs(vec![("a", device(FLOAT, &[2])), ("b", a())], &n).unwrap();
    assert_eq!(w, Work::Place(1, true));
    let w = needs(vec![("a", host(&[1], &[3])), ("b", host(&[1], &[4]))], &n).unwrap();
    assert!(matches!(w, Work::Arithmetic(BinOp::Add, _, _)));
    let big = floats(&[2000], &vec![0.5; 2000]);
    let w = needs(vec![("a", Tensor::Host(big)), ("b", a())], &node("Mul", &["a", "b"])).unwrap();
    assert_eq!(w, Work::Place(0, true));
}

#[test]
fn shapes_are_results_on_the_host() {
    let w = needs(vec![("x", device(FLOAT, &[2, 3, 4]))], &node("Shape", &["x"])).unwrap();
    assert_eq!(ints(w), vec![2, 3, 4]);
    let n = with(node("Shape", &["x"]), "start", AttrValue::Int(-2));
    assert_eq!(shape_op(&n, &[2, 3, 4]).to_i64().unwrap(), vec![3, 4]);
    let n = with(n, "end", AttrValue::Int(-1));
    assert_eq!(shape_op(&n, &[2, 3, 4]).to_i64().unwrap(), vec![3]);
    let n = with(n, "end", AttrValue::Int(0));
    assert_eq!(shape_op(&n, &[2, 3, 4]).to_i64().unwrap(), Vec::<i64>::new());
}

#[test]
fn new_shapes() {
    assert_eq!(resolve_reshape(&[2, 3, 4], &[0, -1]).unwrap(), vec![2, 12]);
    assert_eq!(resolve_reshape(&[2, 3, 4], &[4, 6]).unwrap(), vec![4, 6]);
    assert!(resolve_reshape(&[2, 3], &[-1, -1]).is_err());
    assert!(resolve_reshape(&[2, 3], &[4, -1]).is_err());
    assert!(resolve_reshape(&[2], &[2, 0]).is_err());
    assert_eq!(squeeze(&[1, 3, 1], None), vec![3]);
    assert_eq!(squeeze(&[1, 3, 1], Some(&[-1])), vec![1, 3]);
    assert_eq!(unsqueeze(&[3], &[0, -1]).unwrap(), vec![1, 3, 1]);
    assert!(unsqueeze(&[3], &[0, 0]).is_err());
    let n = with(node("Flatten", &["x"]), "axis", AttrValue::Int(-1));
    assert_eq!(flatten(&n, &[2, 3, 4]).unwrap(), vec![6, 4]);
    assert_eq!(flatten(&node("Flatten", &["x"]), &[2, 3, 4]).unwrap(), vec![2, 12]);
    let n = with(node("Flatten", &["x"]), "axis", AttrValue::Int(4));
    assert!(flatten(&n, &[2, 3, 4]).is_err());
    let p = meta_reshape_out(UINT8, 6, vec![2, 3]).unwrap();
    assert_eq!(p.commands, vec![Command::Copy(Slot::Input(0), Slot::Output(0), 6)]);
    assert_eq!(p.outputs[0].storage, Storage::New(6));
    let p = meta_reshape_out(UINT8, 0, vec![0]).unwrap();
    assert_eq!((p.commands.len(), p.outputs[0].storage), (0, Storage::New(1)));
}

#[test]
fn squeezing_undoes_unsqueezing() {
    for axes in [vec![0], vec![1, 3], vec![0, 1, 4]] {
        let there = unsqueeze(&[5, 6], &axes).unwrap();
        assert_eq!(squeeze(&there, Some(&axes)), vec![5, 6]);
    }
}

#[test]
fn a_reshape_happens_where_the_tensor_is() {
    let n = node("Reshape", &["x", "s"]);
    let s = || ("s", host(&[2], &[3, -1]));
    let w = needs(vec![("x", host(&[6], &[1, 2, 3, 4, 5, 6])), s()], &n).unwrap();
    let Work::Results(v) = w else { panic!("the results are there") };
    assert_eq!(v[0].shape, vec![3, 2]);
    let w = needs(vec![("x", device(FLOAT, &[6])), s()], &n).unwrap();
    let Work::Plan(p) = w else { panic!("the device copies it") };
    assert_eq!(p.outputs[0].shape, vec![3, 2]);
    assert_eq!(p.commands, vec![Command::Copy(Slot::Input(0), Slot::Output(0), 24)]);
    assert!(needs(vec![("x", device(FLOAT, &[7])), s()], &n).is_err());
}

#[test]
fn axes_come_from_an_input_or_an_attribute() {
    let x = || ("x", host(&[2], &[7, 8]));
    let n = node("Unsqueeze", &["x", "a"]);
    let w = needs(vec![x(), ("a", host(&[1], &[1]))], &n).unwrap();
    let Work::Results(v) = w else { panic!("the results are there") };
    assert_eq!(v[0].shape, vec![2, 1]);
    let n = with(node("Unsqueeze", &["x"]), "axes", AttrValue::Ints(vec![0]));
    let Work::Results(v) = needs(vec![x()], &n).unwrap() else { panic!("the results are there") };
    assert_eq!(v[0].shape, vec![1, 2]);
    assert!(needs(vec![x()], &node("Unsqueeze", &["x"])).is_err());
    let w = needs(vec![("x", host(&[1, 2], &[7, 8]))], &node("Squeeze", &["x"])).unwrap();
    let Work::Results(v) = w else { panic!("the results are there") };
    assert_eq!(v[0].shape, vec![2]);
}

#[test]
fn casts_follow_the_tensor() {
    let n = with(node("Cast", &["x"]), "to", AttrValue::Int(i64::from(INT32)));
    let w = needs(vec![("x", device(FLOAT, &[2]))], &n).unwrap();
    let Work::Plan(p) = w else { panic!("the device casts it") };
    assert_eq!(p.outputs[0].dtype, INT32);
    let w = needs(vec![("x", device(UINT8, &[2]))], &n).unwrap();
    assert_eq!(w, Work::Fetch(0));
    let w = needs(vec![("x", host(&[2], &[1, 2]))], &n).unwrap();
    let Work::Results(v) = w else { panic!("the results are there") };
    assert_eq!((v[0].dtype, v[0].to_i64().unwrap()), (INT32, vec![1, 2]));
    assert!(needs(vec![("x", host(&[1], &[1]))], &node("Cast", &["x"])).is_err());
}

#[test]
fn a_slice_reads_its_bounds() {
    let n = node("Slice", &["x", "s", "e", "", "t"]);
    let bounds = |x: Tensor| {
        vec![
            ("x", x),
            ("s", host(&[1], &[3])),
            ("e", host(&[1], &[0])),
            ("t", host(&[1], &[-2])),
        ]
    };
    let w = needs(bounds(host(&[4], &[10, 11, 12, 13])), &n).unwrap();
    assert_eq!(ints(w), vec![13, 11]);
    let w = needs(bounds(device(FLOAT, &[4])), &n).unwrap();
    let Work::Plan(p) = w else { panic!("the device slices it") };
    assert_eq!(p.outputs[0].shape, vec![2]);
    let mut away = bounds(host(&[4], &[10, 11, 12, 13]));
    away[1].1 = device(INT64, &[1]);
    assert_eq!(needs(away, &n).unwrap(), Work::Fetch(1));
}

#[test]
fn a_split_on_the_host() {
    let mut n = node("Split", &["x", "s"]);
    n.outputs = vec!["a".into(), "b".into()];
    let x = || ("x", host(&[5], &[1, 2, 3, 4, 5]));
    let Work::Results(v) = needs(vec![x(), ("s", host(&[2], &[2, 3]))], &n).unwrap() else {
        panic!("the results are there")
    };
    assert_eq!(v[0].to_i64().unwrap(), vec![1, 2]);
    assert_eq!(v[1].to_i64().unwrap(), vec![3, 4, 5]);
    assert!(needs(vec![x(), ("s", host(&[2], &[2, 4]))], &n).is_err());
}

#[test]
fn a_join_skips_inputs_that_are_left_out() {
    let n = with(node("Concat", &["a", "", "b"]), "axis", AttrValue::Int(0));
    let w = needs(vec![("a", host(&[1], &[1])), ("b", host(&[2], &[2, 3]))], &n).unwrap();
    assert_eq!(ints(w), vec![1, 2, 3]);
    let w = needs(vec![("a", device(FLOAT, &[1])), ("b", Tensor::Host(floats(&[1], &[1.0])))], &n);
    assert_eq!(w.unwrap(), Work::Place(2, true));
    let w = needs(vec![("a", device(FLOAT, &[1])), ("b", device(FLOAT, &[2]))], &n).unwrap();
    let Work::Plan(p) = w else { panic!("the device joins it") };
    assert_eq!(p.outputs[0].shape, vec![3]);
    let Command::Run(d) = &p.commands[1] else { panic!("a kernel runs") };
    assert_eq!(d.slots, vec![Slot::Input(2), Slot::Output(0)]);
    assert!(needs(vec![], &node("Concat", &["a"])).is_err());
}

#[test]
fn gathers_on_both_sides() {
    let n = node("Gather", &["x", "i"]);
    let w = needs(vec![("x", host(&[3], &[5, 6, 7])), ("i", host(&[2], &[-1, 0]))], &n).unwrap();
    assert_eq!(ints(w), vec![7, 5]);
    let w = needs(vec![("x", device(FLOAT, &[3])), ("i", host(&[2], &[-1, 0]))], &n).unwrap();
    assert!(matches!(w, Work::Plan(_)));
    let w = needs(vec![("x", device(FLOAT, &[3])), ("i", device(INT64, &[2]))], &n).unwrap();
    assert_eq!(w, Work::Fetch(1));
    assert!(needs(vec![("x", host(&[3], &[5, 6, 7])), ("i", host(&[1], &[3]))], &n).is_err());
}

#[test]
fn a_choice_on_the_host() {
    let n = node("Where", &["c", "x", "y"]);
    let c = Tensor::Host(HostTensor { dtype: 9, shape: vec![2], data: vec![1, 0] });
    let w = needs(vec![("c", c), ("x", host(&[2], &[1, 2])), ("y", host(&[1], &[9]))], &n).unwrap();
    assert_eq!(ints(w), vec![1, 9]);
}

#[test]
fn pads_on_both_sides() {
    let n = node("Pad", &["x", "p", "v"]);
    let all = |x: Tensor, v: Tensor| vec![("x", x), ("p", host(&[2], &[1, 1])), ("v", v)];
    let w = needs(all(host(&[1], &[5]), host(&[1], &[7])), &n).unwrap();
    assert_eq!(ints(w), vec![7, 5, 7]);
    let v = Tensor::Host(floats(&[1], &[0.5]));
    let Work::Plan(p) = needs(all(device(FLOAT, &[1]), v), &n).unwrap() else {
        panic!("the device pads it")
    };
    let Command::Run(d) = &p.commands[1] else { panic!("a kernel runs") };
    assert_eq!(d.push, vec![3, 1, 0.5f32.to_bits()]);
    let odd = with(node("Pad", &["x", "p", "v"]), "mode", AttrValue::String("edge".into()));
    assert!(needs(all(host(&[1], &[5]), host(&[1], &[7])), &odd).is_err());
}

#[test]
fn conditions_choose_branches() {
    let n = node("If", &["c"]);
    assert_eq!(needs(vec![("c", host(&[1], &[2]))], &n).unwrap(), Work::Branch(true));
    assert_eq!(needs(vec![("c", host(&[1], &[0]))], &n).unwrap(), Work::Branch(false));
    assert!(needs(vec![("c", host(&[0], &[]))], &n).is_err());
}

#[test]
fn constants_and_fills() {
    let t = InitializerIr { dtype: INT64, shape: vec![1], data: 7i64.to_le_bytes().to_vec() };
    let n = with(node("Constant", &[]), "value", AttrValue::Tensor(t));
    assert_eq!(ints(needs(vec![], &n).unwrap()), vec![7]);
    assert!(needs(vec![], &node("Constant", &[])).is_err());
    let n = node("ConstantOfShape", &["s"]);
    let Work::Results(v) = needs(vec![("s", host(&[1], &[2]))], &n).unwrap() else {
        panic!("the results are there")
    };
    assert_eq!(v, vec![floats(&[2], &[0.0, 0.0])]);
    let n = node("Expand", &["x", "s"]);
    let w = needs(vec![("x", host(&[1], &[4])), ("s", host(&[1], &[3]))], &n).unwrap();
    assert_eq!(ints(w), vec![4, 4, 4]);
    let n = node("Tile", &["x", "s"]);
    let w = needs(vec![("x", host(&[2], &[4, 5])), ("s", host(&[1], &[2]))], &n).unwrap();
    assert_eq!(ints(w), vec![4, 5, 4, 5]);
}

#[test]
fn work_for_floating_point_is_handed_on() {
    let one = || host(&[1], &[1]);
    let three = |op: &str| {
        needs(vec![("a", one()), ("b", one()), ("c", one())], &node(op, &["a", "b", "c"])).unwrap()
    };
    assert!(matches!(three("Range"), Work::Range(_, _, _)));
    let n = with(node("Mod", &["a", "b"]), "fmod", AttrValue::Int(1));
    let w = needs(vec![("a", one()), ("b", one())], &n).unwrap();
    assert!(matches!(w, Work::Remainder(true, _, _)));
    let n = with(node("CumSum", &["a", "b"]), "reverse", AttrValue::Int(1));
    let w = needs(vec![("a", one()), ("b", host(&[1], &[0]))], &n).unwrap();
    assert!(matches!(w, Work::RunningSums(_, 0, false, true)));
    let n = with(node("TopK", &["a", "b"]), "largest", AttrValue::Int(0));
    let w = needs(vec![("a", one()), ("b", one())], &n).unwrap();
    assert!(matches!(w, Work::TopK(_, 1, -1, false)));
}

#[test]
fn products_wait_for_their_layout() {
    let n = node("MatMul", &["a", "b"]);
    let w = needs(vec![("a", device(FLOAT, &[2, 3])), ("b", device(FLOAT, &[3, 4]))], &n).unwrap();
    assert_eq!(w, Work::MatMul(vec![2, 3], vec![3, 4]));
    let n = node("Conv", &["x", "w"]);
    let w = needs(vec![("x", device(FLOAT, &[1, 1, 4])), ("w", device(FLOAT, &[1, 1, 2]))], &n);
    let Work::Conv(g, false) = w.unwrap() else { panic!("a convolution") };
    assert_eq!(g.out_shape, vec![1, 1, 3]);
    let n = node("Gemm", &["a", "b"]);
    let w = needs(vec![("a", device(FLOAT, &[2, 3])), ("b", device(FLOAT, &[3, 4]))], &n).unwrap();
    let Work::Plan(p) = w else { panic!("the device multiplies") };
    let Command::Run(d) = &p.commands[0] else { panic!("a kernel runs") };
    assert_eq!(d.kernel, Kernel::Gemm);
}

#[test]
fn large_constants_are_transposed_once() {
    let mut constants = NameMap::new();
    let data: Vec<u8> = (0..1_002_000u32).map(|i| i as u8).collect();
    constants.insert("w".to_string(), InitializerIr { dtype: UINT8, shape: vec![1002, 1000], data });
    let env = ExecutionEnv::new(&constants);
    let mut cache = KernelCache::new();
    let n = node("Transpose", &["w"]);
    let Work::Plan(p) = work(&env, &cache, &NameMap::new(), &n, LIMITS).unwrap() else {
        panic!("the device keeps it")
    };
    assert_eq!(p.outputs[0].shape, vec![1000, 1002]);
    let Command::Upload(0, bytes) = &p.commands[0] else { panic!("it is brought") };
    assert_eq!(&bytes[..2], &[0, 1000u32 as u8]);
    let onnx_vulkan_core::plan::Scratch::Kept(key, _) = p.scratch[0].clone() else {
        panic!("it is kept")
    };
    cache.keep_packed(key, 9);
    let Work::Plan(p) = work(&env, &cache, &NameMap::new(), &n, LIMITS).unwrap() else {
        panic!("the device keeps it")
    };
    assert_eq!(p.commands, vec![]);
}

#[test]
fn nodes_that_cannot_run_are_not_taken() {
    let s = |v: &str| AttrValue::String(v.to_string());
    assert!(is_implemented_node(&node("Pad", &["x", "pads"])));
    assert!(!is_implemented_node(&with(node("Pad", &["x", "pads"]), "mode", s("reflect"))));
    assert!(is_implemented_node(&node("BatchNormalization", &["x", "s", "b", "m", "v"])));
    assert!(!is_implemented_node(&node("BatchNormalization", &["x", "s", "b", "m"])));
    assert!(is_implemented_node(&node("MatMulInteger", &["a", "b", "za", "zb"])));
    assert!(!is_implemented_node(&node("MatMulInteger", &["a", "b"])));
    // bounds, shapes and counts have to be inputs
    assert!(is_implemented_node(&node("Slice", &["x", "s", "e"])));
    assert!(!is_implemented_node(&node("Slice", &["x"])));
    assert!(!is_implemented_node(&node("Pad", &["x"])));
    assert!(!is_implemented_node(&node("Reshape", &["x"])));
    assert!(!is_implemented_node(&node("TopK", &["x"])));
    let inner = with(node("LayerNormalization", &["x", "s"]), "axis", AttrValue::Int(-2));
    assert!(!is_implemented_node(&inner));
}

#[test]
fn only_single_dimensions_are_squeezed_away() {
    assert_eq!(squeeze(&[3, 1, 2, 1], Some(&[0, 1])), [3, 2, 1]);
    assert_eq!(squeeze(&[3, 1, 2, 1], None), [3, 2]);
    assert_eq!(squeeze(&[3, 1, 2, 1], Some(&[-1])), [3, 1, 2]);
}
