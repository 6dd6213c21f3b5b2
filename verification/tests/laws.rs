use onnx_vulkan_core::decimal::parse_unsigned;
use onnx_vulkan_core::executor::Switches;
use onnx_vulkan_core::host_ops::{cumsum, join, pad, slice, slice_params, BinOp, FLOAT, INT64};
use onnx_vulkan_core::interp::carry_out::{due, reused, slot_buffer, slot_buffers, tensors, Made};
use onnx_vulkan_core::interp::cut_steps::host_parts;
use onnx_vulkan_core::interp::host_work::{arithmetic, clip};
use onnx_vulkan_core::plan::{
    Command, Dispatch, Grid, Kernel, PackedKey, Produced, Scratch, Slot, Storage,
};
use onnx_vulkan_core::text::{before, decimal, signed_decimal};
use onnx_vulkan_core::{
    AttrValue, DeviceBuffer, DeviceTensor, Error, ExecutionEnv, Executor, GraphIr, HostTensor,
    InitializerIr, KernelCache, NameMap, NodeIr, Tensor,
};

fn node(op: &str, inputs: &[&str], output: &str) -> NodeIr {
    NodeIr {
        domain: String::new(),
        op: op.into(),
        since_version: 11,
        name: output.into(),
        inputs: inputs.iter().map(|s| s.to_string()).collect(),
        outputs: vec![output.into()],
        attrs: NameMap::new(),
    }
}

fn mean(input: &str, output: &str) -> NodeIr {
    let mut n = node("ReduceMean", &[input], output);
    n.attrs.insert("axes".to_string(), AttrValue::Ints(vec![-1]));
    n
}

fn floats(shape: &[i64], v: &[f32]) -> InitializerIr {
    InitializerIr {
        dtype: FLOAT,
        shape: shape.to_vec(),
        data: v.iter().flat_map(|x| x.to_le_bytes()).collect(),
    }
}

/// Two normalizations in a row, with a constant to fold and a node that nothing reads.
fn normalized() -> GraphIr {
    let mut join = node("Concat", &["c1", "c2"], "joined");
    join.attrs.insert("axis".to_string(), AttrValue::Int(0));
    let mut nodes = vec![join, node("Relu", &["x"], "unread")];
    for (x, p) in [("x", "a"), ("a8", "b")] {
        let n = |i: usize| format!("{p}{i}");
        nodes.push(mean(x, &n(0)));
        nodes.push(node("Sub", &[x, &n(0)], &n(1)));
        nodes.push(node("Pow", &[&n(1), "two"], &n(2)));
        nodes.push(mean(&n(2), &n(3)));
        nodes.push(node("Add", &[&n(3), "eps"], &n(4)));
        nodes.push(node("Sqrt", &[&n(4)], &n(5)));
        nodes.push(node("Div", &[&n(1), &n(5)], &n(6)));
        nodes.push(node("Mul", &[&n(6), "scale"], &n(7)));
        nodes.push(node("Add", &[&n(7), "bias"], &n(8)));
    }
    nodes.push(node("Reshape", &["b8", "joined"], "y"));
    let mut g = GraphIr {
        nodes,
        initializers: NameMap::new(),
        inputs: vec!["x".into()],
        outputs: vec!["y".into()],
    };
    let ints = |v: i64| InitializerIr {
        dtype: INT64,
        shape: vec![1],
        data: v.to_le_bytes().to_vec(),
    };
    g.initializers.insert("two".to_string(), floats(&[], &[2.0]));
    g.initializers.insert("eps".to_string(), floats(&[], &[1e-5]));
    g.initializers.insert("scale".to_string(), floats(&[2], &[1.0, 1.0]));
    g.initializers.insert("bias".to_string(), floats(&[2], &[0.0, 0.0]));
    g.initializers.insert("c1".to_string(), ints(1));
    g.initializers.insert("c2".to_string(), ints(-1));
    g
}

fn loaded() -> GraphIr {
    match Executor::new(normalized(), Switches { df_folds: true, qk_reorder: true }) {
        Ok(e) => e.ir,
        Err(e) => panic!("{}", e.message()),
    }
}

#[test]
fn loading_fuses_folds_and_drops() {
    let g = loaded();
    let ops: Vec<&str> = g.nodes.iter().map(|n| n.op.as_str()).collect();
    assert_eq!(ops, vec!["LayerNormalization", "LayerNormalization", "Reshape"]);
    let mut names: Vec<&str> = g.initializers.entries.iter().map(|e| e.0.as_str()).collect();
    names.sort();
    assert_eq!(names, vec!["bias", "joined", "scale"]);
}

#[test]
fn a_loaded_graph_is_in_order_and_lacks_nothing() {
    let g = loaded();
    for (i, n) in g.nodes.iter().enumerate() {
        for name in &n.inputs {
            let made = g.nodes.iter().position(|m| m.outputs.contains(name));
            match made {
                Some(j) => assert!(j < i),
                None => assert!(g.initializers.contains_key(name) || g.inputs.contains(name)),
            }
        }
    }
    assert!(g.nodes.iter().any(|n| n.outputs.contains(&"y".to_string())));
    assert_eq!(g.inputs, vec!["x".to_string()]);
    assert_eq!(g.outputs, vec!["y".to_string()]);
}

#[test]
fn texts_are_in_one_order() {
    let words = ["", "A", "Add", "Adde", "add", "×", "𝄞", "Ä"];
    for a in words {
        for b in words {
            assert_eq!(before(a, b), a.as_bytes() < b.as_bytes());
            assert_eq!(before(a, b) || before(b, a), a != b);
        }
    }
}

#[test]
fn numbers_that_are_written_are_read_back() {
    for n in [0u64, 7, 10, 99, 100, 12345678901234567890, u64::MAX] {
        assert_eq!(decimal(n), n.to_string());
        assert_eq!(parse_unsigned(&decimal(n), u64::MAX), Some(n));
    }
    for n in [0i64, -1, i64::MIN, i64::MAX] {
        assert_eq!(signed_decimal(n), n.to_string());
    }
}

fn ints(v: &[i64]) -> HostTensor {
    HostTensor::from_i64(vec![v.len() as i64], v)
}

fn float_op(op: BinOp, x: u32, y: u32) -> u32 {
    let (x, y) = (f32::from_bits(x), f32::from_bits(y));
    match op {
        BinOp::Max => x.max(y).to_bits(),
        BinOp::Min => x.min(y).to_bits(),
        _ => (x + y).to_bits(),
    }
}

#[test]
fn integers_that_do_not_fit_are_refused() {
    let r = arithmetic(&ints(&[1, 2]), &ints(&[10]), BinOp::Add, float_op).unwrap();
    assert_eq!(r.to_i64().unwrap(), vec![11, 12]);
    let r = arithmetic(&ints(&[i64::MAX]), &ints(&[1]), BinOp::Add, float_op);
    assert!(matches!(r, Err(Error::Backend(_))));
    let half = HostTensor::from_f32(vec![1], &[0.5f32.to_bits()]);
    let r = arithmetic(&half, &ints(&[1]), BinOp::Add, float_op).unwrap();
    assert_eq!(r.to_f32().unwrap(), vec![1.5f32.to_bits()]);
    let r = arithmetic(&ints(&[1, 2]), &ints(&[1, 2, 3]), BinOp::Add, float_op);
    assert!(matches!(r, Err(Error::InvalidShape(_))));
}

#[test]
fn bounds_are_applied_one_after_the_other() {
    let x = ints(&[-5, 0, 5, 9]);
    let r = clip(&x, &Some(ints(&[-1])), &Some(ints(&[6])), float_op).unwrap();
    assert_eq!(r.to_i64().unwrap(), vec![-1, 0, 5, 6]);
    let r = clip(&x, &Some(ints(&[7])), &Some(ints(&[6])), float_op).unwrap();
    assert_eq!(r.to_i64().unwrap(), vec![6, 6, 6, 6]);
    assert_eq!(clip(&x, &None, &None, float_op).unwrap(), x);
}

#[test]
fn slots_stand_for_buffers() {
    let none = NameMap::new();
    let mut env = ExecutionEnv::new(&none);
    env.set(
        "x",
        Tensor::Device(DeviceTensor {
            dtype: FLOAT,
            shape: vec![1],
            elem_count: 1,
            buf: DeviceBuffer::Owned(11),
        }),
    );
    let n = node("Relu", &["x", "gone"], "y");
    let made = Made { outputs: vec![21], scratch: vec![31, 32], zero: 41 };
    let slots = vec![Slot::Input(0), Slot::Output(0), Slot::Scratch(1), Slot::Zero];
    assert_eq!(slot_buffers(&env, &n, &made, &slots), Some(vec![11, 21, 32, 41]));
    for s in [Slot::Input(1), Slot::Input(2), Slot::Output(1), Slot::Scratch(2)] {
        assert_eq!(slot_buffer(&env, &n, &made, s), None);
        assert_eq!(slot_buffers(&env, &n, &made, &vec![Slot::Zero, s]), None);
    }
}

#[test]
fn new_buffers_are_owned_and_kept_ones_borrowed() {
    let out = |storage: Storage| Produced { dtype: FLOAT, shape: vec![2], elem_count: 2, storage };
    let made = Made { outputs: vec![21, 0], scratch: vec![31], zero: 41 };
    let v = tensors(&vec![out(Storage::New(8)), out(Storage::Scratch(0))], &made).unwrap();
    let bufs: Vec<DeviceBuffer> = v
        .iter()
        .map(|t| match t {
            Tensor::Device(d) => d.buf,
            Tensor::Host(_) => panic!("it is on the device"),
        })
        .collect();
    assert_eq!(bufs, vec![DeviceBuffer::Owned(21), DeviceBuffer::Borrowed(31)]);
    assert!(tensors(&vec![out(Storage::New(8)), out(Storage::Scratch(1))], &made).is_none());
}

#[test]
fn kept_buffers_are_filled_once() {
    let key = |name: &str| PackedKey { name: name.to_string(), rows: 1, cols: 2 };
    let mut cache = KernelCache::new();
    cache.keep_packed(key("old"), 7);
    let scratch = vec![
        Scratch::Temporary(4),
        Scratch::Kept(key("old"), 8),
        Scratch::Kept(key("new"), 8),
    ];
    let there = reused(&cache, &scratch);
    assert_eq!(there, vec![None, Some(7), None]);
    let d = |kernel: Kernel| Dispatch {
        kernel,
        slots: vec![],
        push: vec![],
        grid: Grid { x: 1, y: 1, z: 1 },
    };
    let commands = vec![
        Command::Upload(0, vec![1]),
        Command::Once(1, d(Kernel::PackColumns)),
        Command::Once(2, d(Kernel::FlipSigns)),
        Command::Run(d(Kernel::IntProduct)),
    ];
    let want = vec![
        Command::Upload(0, vec![1]),
        Command::Run(d(Kernel::FlipSigns)),
        Command::Run(d(Kernel::IntProduct)),
    ];
    assert_eq!(due(commands, &there), want);
}

#[test]
fn flipping_signs_keeps_differences() {
    for b in 0..=255u8 {
        for z in [0u8, 1, 127, 128, 200, 255] {
            let signed = i32::from(b as i8) - i32::from(z as i8);
            assert_eq!(signed, i32::from(b ^ 0x80) - i32::from(z ^ 0x80));
        }
    }
}

#[test]
fn joining_undoes_a_split() {
    let values: Vec<i64> = (0..24).collect();
    let t = HostTensor::from_i64(vec![2, 4, 3], &values);
    for (axis, sizes) in [(0usize, vec![1i64, 1]), (1, vec![1, 0, 3]), (2, vec![2, 1]), (2, vec![3])] {
        let parts = host_parts(&t, &t.shape, axis, &sizes).unwrap();
        assert_eq!(parts.len(), sizes.len());
        let back = join::concat(&parts, axis as i64).unwrap();
        assert_eq!(back.shape, t.shape);
        assert_eq!(back.data, t.data);
    }
    let parts = host_parts(&t, &t.shape, 1, &[1, 3]).unwrap();
    assert_eq!(parts[0].shape, [2, 1, 3]);
    assert_eq!(parts[0].to_i64().unwrap(), [0, 1, 2, 12, 13, 14]);
    assert_eq!(parts[1].to_i64().unwrap()[..3], [3, 4, 5]);
    assert!(host_parts(&t, &t.shape, 1, &[2, 3]).is_none());
    assert!(host_parts(&t, &t.shape, 1, &[-1, 5]).is_none());
}

#[test]
fn cutting_undoes_a_margin() {
    let t = HostTensor::from_i64(vec![2, 2], &[1, 2, 3, 4]);
    let p = pad(&t, &[1, 0], &[0, 2], &7i64.to_le_bytes()).unwrap();
    assert_eq!(p.shape, [3, 4]);
    assert_eq!(p.to_i64().unwrap(), [7, 7, 7, 7, 1, 2, 7, 7, 3, 4, 7, 7]);
    let back = slice(&p, &[2, 2], &[1, 0], &[1, 1]).unwrap();
    assert_eq!(back.shape, t.shape);
    assert_eq!(back.data, t.data);
}

#[test]
fn floats_are_read_back_bit_by_bit() {
    let bits = [0u32, 0x8000_0000, 0x7fc0_0001, 1.5f32.to_bits(), f32::NEG_INFINITY.to_bits()];
    let t = HostTensor::from_f32(vec![5], &bits);
    assert_eq!(t.to_f32().unwrap(), bits);
}

#[test]
fn opposite_margins_undo_a_padding() {
    let t = HostTensor::from_i64(vec![2, 2], &[1, 2, 3, 4]);
    let p = pad(&t, &[1, 0], &[0, 2], &7i64.to_le_bytes()).unwrap();
    assert_eq!(pad(&p, &[-1, 0], &[0, -2], &[]).unwrap(), t);
}

#[test]
fn joining_undoes_a_cut_by_slices() {
    let values: Vec<i64> = (0..24).collect();
    let t = HostTensor::from_i64(vec![2, 4, 3], &values);
    for at in 0..=4 {
        let cut = |from: i64, to: i64| {
            let (out, st, sp) = slice_params(&t.shape, &[from], &[to], Some(&[1]), None).unwrap();
            slice(&t, &out, &st, &sp).unwrap()
        };
        assert_eq!(join::concat(&[cut(0, at), cut(at, 4)], 1).unwrap(), t);
    }
}

#[test]
fn inclusive_sums_add_the_element() {
    let t = HostTensor::from_i64(vec![2, 3], &[1, 2, 3, 10, -20, 30]);
    let no_floats = |_: u64, _: u32| -> u64 { panic!("integers are no floats") };
    let narrow = |_: u64| -> u32 { panic!("integers are no floats") };
    for reverse in [false, true] {
        let sums = |exclusive| {
            cumsum(&t, 1, exclusive, reverse, no_floats, narrow).unwrap().to_i64().unwrap()
        };
        let (with, without) = (sums(false), sums(true));
        for (i, x) in t.to_i64().unwrap().into_iter().enumerate() {
            assert_eq!(with[i], without[i] + x);
        }
    }
    // sums of exactly 2^53
    let t = HostTensor::from_i64(vec![2], &[(1 << 53) - 1, 1]);
    let sums = |exclusive| {
        cumsum(&t, 0, exclusive, false, no_floats, narrow).unwrap().to_i64().unwrap()
    };
    assert_eq!(sums(false), [(1 << 53) - 1, 1 << 53]);
    assert_eq!(sums(true), [0, (1 << 53) - 1]);
}
