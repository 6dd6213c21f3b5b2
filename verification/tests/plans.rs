use onnx_vulkan_core::host_ops::{BinOp, FLOAT, INT32, INT8, UINT8};
use onnx_vulkan_core::interp::attention::{
    attention_sizes, group_query_attention, AttentionShapes, AttentionSizes,
};
use onnx_vulkan_core::interp::conv::{
    conv_f32, conv_transpose, phase_geom, product_size, transposed_geometry, ConvTuning, PhaseGeom,
};
use onnx_vulkan_core::interp::elementwise::{
    cast_device, clip, device_cast, gelu, gpu_binary, leaky_relu, unary, LEAKY_SLOPE, NEG_INFINITY,
};
use onnx_vulkan_core::interp::gather::{concat_device, gather_device, Joined};
use onnx_vulkan_core::interp::int_product::{
    conv_integer, int_sizes, matmul_integer, IntOperands, IntTuning, SIGN_FLIP_BYTE, SIGN_FLIP_WORD,
};
use onnx_vulkan_core::interp::layout::{
    pad_device, slice_device, split, split_sizes, where_device, where_shape,
};
use onnx_vulkan_core::interp::norm::{
    batchnorm, layernorm, rmsnorm, skip_rmsnorm, softmax, EPSILON,
};
use onnx_vulkan_core::interp::product::{
    gemm, matmul_fp32, matmul_nbits_q4, Extent, MatMulTuning, NbitsTuning,
};
use onnx_vulkan_core::interp::quantize::{
    dequantize_linear, dynamic_quantize, qdq_layout, quantize_linear,
};
use onnx_vulkan_core::interp::sampling::{
    grid_sample, pool, reduce, resize, resize_sizes, PoolKind, ResizeSizes, Scales,
    COORD_ASYMMETRIC, COORD_HALF_PIXEL, CUBIC_COEFFICIENT, MODE_LINEAR, MODE_NEAREST,
    NEAREST_FLOOR, NEAREST_ROUND_PREFER_FLOOR, PAD_BORDER,
};
use onnx_vulkan_core::interp::window::{conv_geometry, same_pads, window_attrs, ConvGeom};
use onnx_vulkan_core::plan::{
    push_bytes, Command, Dispatch, Grid, Kernel, NbitsKind, PackedKey, Plan, Produced, ReduceKind,
    Scratch, Slot, Storage, UnaryOp,
};
use onnx_vulkan_core::shaders::push_vec4s;
use onnx_vulkan_core::{AttrValue, Error, HostTensor, NameMap, NodeIr};

fn node(op: &str) -> NodeIr {
    NodeIr {
        domain: String::new(),
        op: op.into(),
        since_version: 13,
        name: op.into(),
        inputs: vec!["x".into()],
        outputs: vec!["y".into()],
        attrs: NameMap::new(),
    }
}

fn with_ints(mut n: NodeIr, name: &str, v: &[i64]) -> NodeIr {
    n.attrs.insert(name.into(), AttrValue::Ints(v.to_vec()));
    n
}

fn with_int(mut n: NodeIr, name: &str, v: i64) -> NodeIr {
    n.attrs.insert(name.into(), AttrValue::Int(v));
    n
}

fn with_float(mut n: NodeIr, name: &str, v: f32) -> NodeIr {
    n.attrs.insert(name.into(), AttrValue::Float(v.to_bits()));
    n
}

fn with_text(mut n: NodeIr, name: &str, v: &str) -> NodeIr {
    n.attrs.insert(name.into(), AttrValue::String(v.into()));
    n
}

fn grid(x: u32, y: u32, z: u32) -> Grid {
    Grid { x, y, z }
}

fn dispatch(kernel: Kernel, slots: &[Slot], push: &[u32], g: Grid) -> Dispatch {
    Dispatch { kernel, slots: slots.to_vec(), push: push.to_vec(), grid: g }
}

fn run(kernel: Kernel, slots: &[Slot], push: &[u32], g: Grid) -> Command {
    Command::Run(dispatch(kernel, slots, push, g))
}

fn fresh(dtype: i32, shape: &[i64], n: usize, bytes: u64) -> Produced {
    Produced { dtype, shape: shape.to_vec(), elem_count: n, storage: Storage::New(bytes) }
}

fn plan(outputs: Vec<Produced>, scratch: Vec<Scratch>, commands: Vec<Command>) -> Plan {
    Plan { outputs, scratch, commands }
}

fn simple(out: Produced, c: Command) -> Plan {
    plan(vec![out], vec![], vec![c])
}

fn words(v: &[i32]) -> Vec<u8> {
    v.iter().flat_map(|x| x.to_le_bytes()).collect()
}

fn in0_out0() -> [Slot; 2] {
    [Slot::Input(0), Slot::Output(0)]
}

fn is_backend<T>(r: Result<T, Error>) -> bool {
    matches!(r, Err(Error::Backend(_)))
}

// --- elements ---------------------------------------------------------------------------

#[test]
fn a_unary_plan_covers_every_element() {
    let p = unary(UnaryOp::Relu, vec![3, 100], 300).unwrap();
    let want = simple(
        fresh(FLOAT, &[3, 100], 300, 1200),
        run(Kernel::Unary(UnaryOp::Relu), &in0_out0(), &[300], grid(2, 1, 1)),
    );
    assert_eq!(p, want);
}

#[test]
fn an_empty_tensor_needs_no_command() {
    let p = unary(UnaryOp::Exp, vec![0, 4], 0).unwrap();
    assert_eq!(p, plan(vec![fresh(FLOAT, &[0, 4], 0, 4)], vec![], vec![]));
}

#[test]
fn slopes_make_different_kernels() {
    assert_eq!(leaky_relu(&node("LeakyRelu")), UnaryOp::LeakyRelu(LEAKY_SLOPE));
    assert_eq!(LEAKY_SLOPE, 0.01f32.to_bits());
    let n = with_float(node("LeakyRelu"), "alpha", 0.2);
    assert_eq!(leaky_relu(&n), UnaryOp::LeakyRelu(0.2f32.to_bits()));
}

#[test]
fn gelu_has_two_functions() {
    assert_eq!(gelu(&node("Gelu")).unwrap(), UnaryOp::Gelu);
    assert_eq!(gelu(&with_text(node("Gelu"), "approximate", "tanh")).unwrap(), UnaryOp::GeluTanh);
    assert!(is_backend(gelu(&with_text(node("Gelu"), "approximate", "sigmoid"))));
}

#[test]
fn clip_takes_attributes_before_inputs() {
    let n = with_float(node("Clip"), "min", -1.0);
    let hi = [6.0f32.to_bits()];
    let lo = [0.0f32.to_bits()];
    let p = clip(&n, vec![2], 2, Some(&lo), Some(&hi)).unwrap();
    let want = simple(
        fresh(FLOAT, &[2], 2, 8),
        run(
            Kernel::Clip,
            &in0_out0(),
            &[2, (-1.0f32).to_bits(), 6.0f32.to_bits()],
            grid(1, 1, 1),
        ),
    );
    assert_eq!(p, want);
    let open = clip(&node("Clip"), vec![1], 1, None, Some(&[])).unwrap();
    let Command::Run(d) = &open.commands[0] else { panic!("a kernel runs") };
    assert_eq!(d.push, vec![1, NEG_INFINITY, f32::INFINITY.to_bits()]);
    assert_eq!(NEG_INFINITY, f32::NEG_INFINITY.to_bits());
}

#[test]
fn casts_between_words_stay_on_the_device() {
    assert!(device_cast(INT32, FLOAT) && device_cast(FLOAT, INT32) && device_cast(FLOAT, FLOAT));
    assert!(!device_cast(UINT8, FLOAT) && !device_cast(FLOAT, UINT8));
    let p = cast_device(INT32, FLOAT, vec![300], 300).unwrap();
    let want = simple(
        fresh(FLOAT, &[300], 300, 1200),
        run(Kernel::Cast, &in0_out0(), &[300, 0], grid(2, 1, 1)),
    );
    assert_eq!(p, want);
    let back = cast_device(FLOAT, INT32, vec![1], 1).unwrap();
    let Command::Run(d) = &back.commands[0] else { panic!("a kernel runs") };
    assert_eq!(d.push, vec![1, 1]);
    let same = cast_device(INT32, INT32, vec![5], 5).unwrap();
    assert_eq!(same.commands, vec![Command::Copy(Slot::Input(0), Slot::Output(0), 20)]);
}

#[test]
fn arithmetic_broadcasts_by_strides() {
    let p = gpu_binary(BinOp::Add, &[2, 3], &[3]).unwrap();
    let mut push = vec![6, 2, 0, 0];
    push.extend([3, 1, 0, 0, 0, 0, 0, 0]);
    push.extend([3, 1, 0, 0, 0, 0, 0, 0]);
    push.extend([0, 1, 0, 0, 0, 0, 0, 0]);
    let want = simple(
        fresh(FLOAT, &[2, 3], 6, 24),
        run(
            Kernel::Binary(BinOp::Add),
            &[Slot::Input(0), Slot::Input(1), Slot::Output(0)],
            &push,
            grid(1, 1, 1),
        ),
    );
    assert_eq!(p, want);
    assert!(is_backend(gpu_binary(BinOp::Mul, &[2], &[3])));
    assert!(is_backend(gpu_binary(BinOp::Mul, &[1; 9], &[1])));
}

// --- norms ------------------------------------------------------------------------------

#[test]
fn softmax_spreads_rows_over_two_dimensions() {
    let n = with_int(node("Softmax"), "axis", 1);
    let p = softmax(&n, vec![2, 3, 4], 24).unwrap();
    let want = simple(
        fresh(FLOAT, &[2, 3, 4], 24, 96),
        run(Kernel::Softmax, &in0_out0(), &[3, 4, 8, 8], grid(8, 1, 1)),
    );
    assert_eq!(p, want);
    let many = softmax(&node("Softmax"), vec![40000, 2], 80000).unwrap();
    let Command::Run(d) = &many.commands[0] else { panic!("a kernel runs") };
    assert_eq!((d.push.clone(), d.grid), (vec![2, 1, 40000, 32768], grid(32768, 2, 1)));
    assert!(is_backend(softmax(&with_int(node("Softmax"), "axis", 3), vec![2, 3], 6)));
}

#[test]
fn layernorm_runs_one_group_per_row() {
    assert_eq!(EPSILON, 1e-5f32.to_bits());
    let p = layernorm(&node("LayerNormalization"), vec![2, 8], 16, 8, true).unwrap();
    let want = simple(
        fresh(FLOAT, &[2, 8], 16, 64),
        run(
            Kernel::LayerNorm,
            &[Slot::Input(0), Slot::Input(1), Slot::Input(2), Slot::Output(0)],
            &[8, EPSILON, 1],
            grid(2, 1, 1),
        ),
    );
    assert_eq!(p, want);
    let bare = layernorm(&node("LayerNormalization"), vec![2, 8], 16, 8, false).unwrap();
    let Command::Run(d) = &bare.commands[0] else { panic!("a kernel runs") };
    assert_eq!(d.slots[2], Slot::Input(1));
    assert_eq!(d.push[2], 0);
    assert!(is_backend(layernorm(&node("LayerNormalization"), vec![2, 8], 16, 7, true)));
    let wrong = with_int(node("LayerNormalization"), "axis", 0);
    assert!(is_backend(layernorm(&wrong, vec![2, 8], 16, 8, true)));
    let many = vec![65536, 1];
    assert!(is_backend(layernorm(&node("LayerNormalization"), many, 65536, 1, true)));
}

#[test]
fn the_other_norms() {
    let p = rmsnorm(&with_float(node("R"), "epsilon", 0.5), vec![3, 4], 12, 4).unwrap();
    let want = simple(
        fresh(FLOAT, &[3, 4], 12, 48),
        run(
            Kernel::RmsNorm,
            &[Slot::Input(0), Slot::Input(1), Slot::Output(0)],
            &[4, 0.5f32.to_bits()],
            grid(3, 1, 1),
        ),
    );
    assert_eq!(p, want);
    let p = skip_rmsnorm(&node("S"), vec![3, 4], 12, &[3, 4], 4).unwrap();
    let Command::Run(d) = &p.commands[0] else { panic!("a kernel runs") };
    assert_eq!(d.kernel, Kernel::SkipRmsNorm);
    assert_eq!(
        d.slots,
        vec![Slot::Input(0), Slot::Input(1), Slot::Input(2), Slot::Output(0)]
    );
    assert!(is_backend(skip_rmsnorm(&node("S"), vec![3, 4], 12, &[4, 3], 4)));
    let mut n = node("BatchNormalization");
    n.inputs = (0..5).map(|i| format!("i{i}")).collect();
    let p = batchnorm(&n, vec![1, 2, 3, 3], 18, &[2, 2, 2, 2]).unwrap();
    let Command::Run(d) = &p.commands[0] else { panic!("a kernel runs") };
    assert_eq!((d.push.clone(), d.grid), (vec![18, 2, 9, EPSILON], grid(1, 1, 1)));
    assert_eq!(d.slots.len(), 6);
    assert!(is_backend(batchnorm(&n, vec![1, 2, 3, 3], 18, &[2, 2, 3, 2])));
}

// --- windows ----------------------------------------------------------------------------

#[test]
fn same_padding_goes_to_one_side() {
    assert_eq!(same_pads(true, 5, 4, 2, 1), Some((1, 2)));
    assert_eq!(same_pads(false, 5, 4, 2, 1), Some((2, 1)));
    assert_eq!(same_pads(true, 4, 1, 2, 1), Some((0, 0)));
    assert_eq!(same_pads(true, 4, 3, 0, 1), None);
}

fn geometry(n: &NodeIr, x: &[i64], w: &[i64]) -> ConvGeom {
    conv_geometry(window_attrs(n), x, w).unwrap()
}

#[test]
fn same_keeps_the_size_of_each_stride() {
    for (dim, k, s, d) in [(7, 3, 2, 1), (8, 3, 2, 1), (5, 2, 3, 2), (4, 1, 3, 1), (1, 5, 4, 2)] {
        for mode in ["SAME_UPPER", "SAME_LOWER"] {
            let n = with_ints(with_ints(with_text(node("Conv"), "auto_pad", mode), "strides", &[s]), "dilations", &[d]);
            let g = geometry(&n, &[1, 1, dim], &[1, 1, k]);
            assert_eq!(g.h_out, (dim + s - 1) / s);
        }
    }
}

#[test]
fn the_geometry_of_a_convolution() {
    let n = with_ints(with_ints(node("Conv"), "strides", &[2, 1]), "pads", &[1, 0, 1, 2]);
    let g = geometry(&n, &[1, 3, 9, 8], &[4, 3, 3, 5]);
    assert_eq!((g.h_out, g.w_out), (5, 6));
    assert_eq!(g.out_shape, vec![1, 4, 5, 6]);
    assert_eq!(g.total, 120);
    assert_eq!((g.phb, g.pwb, g.phe, g.pwe), (1, 0, 1, 2));
    assert_eq!(
        g.push_common(),
        vec![120, 3, 4, 1, 9, 8, 5, 6, 3, 5, 2, 1, 1, 0, 1, 1, 3]
    );
    assert_eq!(product_size(&g), Some((30, 4, 45)));
}

#[test]
fn one_dimension_is_a_flat_map() {
    let g = geometry(&with_ints(node("Conv"), "pads", &[2, 1]), &[2, 3, 10], &[6, 3, 4]);
    assert_eq!((g.h_out, g.w_out, g.w_in, g.kw), (10, 1, 1, 1));
    assert_eq!(g.out_shape, vec![2, 6, 10]);
}

#[test]
fn windows_that_do_not_fit_are_refused() {
    let big = conv_geometry(window_attrs(&node("Conv")), &[1, 1, 2], &[1, 1, 5]);
    assert!(is_backend(big));
    let rank = conv_geometry(window_attrs(&node("Conv")), &[1, 1, 2, 2, 2], &[1, 1, 1, 1, 1]);
    assert!(is_backend(rank));
    let mode = with_text(node("Conv"), "auto_pad", "REFLECT");
    assert!(is_backend(conv_geometry(window_attrs(&mode), &[1, 1, 4], &[1, 1, 2])));
    let pads = with_ints(node("Conv"), "pads", &[1]);
    assert!(is_backend(conv_geometry(window_attrs(&pads), &[1, 1, 4], &[1, 1, 2])));
}

#[test]
fn valid_ignores_the_padding() {
    let n = with_ints(with_text(node("Conv"), "auto_pad", "VALID"), "pads", &[3, 3]);
    assert_eq!(geometry(&n, &[1, 1, 6], &[1, 1, 3]).h_out, 4);
}

fn tuning() -> ConvTuning {
    ConvTuning { split: None, blocked: false, tile: 16, blocked_tile: 64 }
}

#[test]
fn a_convolution_is_a_product_unless_it_is_grouped() {
    let small = geometry(&node("Conv"), &[1, 3, 8, 8], &[20, 3, 3, 3]);
    let common = small.push_common();
    let mut push = common.clone();
    push.extend([1, 1]);
    let p = conv_f32(small, true, tuning()).unwrap();
    let want = simple(
        fresh(FLOAT, &[1, 20, 6, 6], 720, 2880),
        run(
            Kernel::ConvSmall,
            &[Slot::Input(0), Slot::Input(1), Slot::Input(2), Slot::Output(0)],
            &push,
            grid(3, 2, 1),
        ),
    );
    assert_eq!(p, want);

    let grouped = geometry(&with_int(node("Conv"), "group", 4), &[1, 4, 8, 8], &[4, 1, 3, 3]);
    let p = conv_f32(grouped, false, tuning()).unwrap();
    let Command::Run(d) = &p.commands[0] else { panic!("a kernel runs") };
    assert_eq!(d.kernel, Kernel::ConvGrouped);
    assert_eq!(d.slots[2], Slot::Zero);
    assert_eq!(d.push[17], 0);
    assert_eq!(d.grid, grid(1, 1, 1));
}

#[test]
fn a_split_convolution_sums_its_slices() {
    let g = geometry(&node("Conv"), &[2, 3, 8, 8], &[20, 3, 3, 3]);
    let mut push = g.push_common();
    push.extend([0, 4]);
    let t = ConvTuning { split: Some(4), ..tuning() };
    let p = conv_f32(g, false, t).unwrap();
    let want = plan(
        vec![fresh(FLOAT, &[2, 20, 6, 6], 1440, 5760)],
        vec![Scratch::Temporary(23040)],
        vec![
            run(
                Kernel::ConvSplit,
                &[Slot::Input(0), Slot::Input(1), Slot::Zero, Slot::Scratch(0)],
                &push,
                grid(1, 1, 8),
            ),
            run(
                Kernel::ConvSplitReduce,
                &[Slot::Scratch(0), Slot::Zero, Slot::Output(0)],
                &push,
                grid(6, 1, 1),
            ),
        ],
    );
    assert_eq!(p, want);
}

#[test]
fn a_transposed_convolution_grows() {
    let n = with_ints(with_ints(node("ConvTranspose"), "strides", &[2, 2]), "pads", &[1, 1, 0, 0]);
    let g = transposed_geometry(
        window_attrs(&n),
        Some(vec![1, 0]),
        &[1, 3, 4, 5],
        &[3, 6, 3, 3],
    )
    .unwrap();
    assert_eq!((g.h_out, g.w_out, g.c_out, g.gsi), (9, 10, 6, 6));
    let phases = phase_geom(&g, &Some(vec![1, 0]));
    let want = PhaseGeom {
        batch: 1,
        group: 1,
        kernel: (3, 3),
        stride: (2, 2),
        dilation: (1, 1),
        zero_pads: false,
        zero_output_padding: false,
        macs: 3 * 6 * 9 * 10,
    };
    assert_eq!(phases, want);
    let p = conv_transpose(g, true, None).unwrap();
    let Command::Run(d) = &p.commands[0] else { panic!("a kernel runs") };
    assert_eq!(
        d.push,
        vec![540, 3, 6, 1, 4, 5, 9, 10, 3, 3, 2, 2, 1, 1, 1, 1, 6, 1]
    );
    assert_eq!((d.kernel, d.grid), (Kernel::ConvTranspose, grid(3, 1, 1)));
}

#[test]
fn phases_of_a_transposed_convolution() {
    let n = with_ints(node("ConvTranspose"), "strides", &[3, 1]);
    let g = transposed_geometry(window_attrs(&n), None, &[1, 2, 2, 3], &[2, 5, 2, 1]).unwrap();
    assert_eq!((g.h_out, g.w_out), (5, 3));
    let p = conv_transpose(g, true, Some(("w", 16))).unwrap();
    assert_eq!(p.outputs, vec![fresh(FLOAT, &[1, 5, 5, 3], 75, 300)]);
    let key = |i: usize| PackedKey { name: format!("w#ct{i}"), rows: 2, cols: 5 };
    assert_eq!(
        p.scratch,
        vec![
            Scratch::Temporary(120),
            Scratch::Kept(key(0), 40),
            Scratch::Kept(key(1), 40),
        ]
    );
    let one = 1.0f32.to_bits();
    let mut want = vec![run(
        Kernel::ConvTransposeFill,
        &[Slot::Input(2), Slot::Output(0)],
        &[75, 15, 1],
        grid(1, 1, 1),
    )];
    for r in 0..2u32 {
        let i = 1 + r as usize;
        want.push(Command::Once(
            i,
            dispatch(
                Kernel::ConvTransposePack,
                &[Slot::Input(1), Slot::Scratch(i)],
                &[10, 2, r],
                grid(1, 1, 1),
            ),
        ));
        want.push(run(
            Kernel::ConvTransposeGemm,
            &[Slot::Scratch(i), Slot::Input(0), Slot::Input(2), Slot::Scratch(0)],
            &[5, 2, 6, 5, one, one, 5, 1],
            grid(1, 1, 1),
        ));
        want.push(run(
            Kernel::ConvTransposeInterleave,
            &[Slot::Scratch(0), Slot::Output(0)],
            &[30, 2, 3, 5, 3, 3, 1, r, 0],
            grid(1, 1, 1),
        ));
    }
    assert_eq!(p.commands, want);
}

#[test]
fn pools_use_the_geometry_of_convolutions() {
    let n = with_ints(with_ints(node("MaxPool"), "kernel_shape", &[2, 2]), "strides", &[2, 2]);
    let p = pool(&n, PoolKind::Max, &[1, 3, 4, 6]).unwrap();
    let want = simple(
        fresh(FLOAT, &[1, 3, 2, 3], 18, 72),
        run(
            Kernel::MaxPool,
            &in0_out0(),
            &[18, 3, 4, 6, 2, 3, 2, 2, 2, 2, 0, 0, 1, 1, 0],
            grid(1, 1, 1),
        ),
    );
    assert_eq!(p, want);
    let whole = pool(&node("GlobalAveragePool"), PoolKind::GlobalAverage, &[2, 5, 7]).unwrap();
    assert_eq!(whole.outputs, vec![fresh(FLOAT, &[2, 5, 1], 10, 40)]);
    let Command::Run(d) = &whole.commands[0] else { panic!("a kernel runs") };
    assert_eq!(d.kernel, Kernel::AveragePool);
    assert!(is_backend(pool(&node("MaxPool"), PoolKind::Max, &[1, 3, 4, 6])));
    let ceil = with_int(with_ints(node("MaxPool"), "kernel_shape", &[2, 2]), "ceil_mode", 1);
    assert!(is_backend(pool(&ceil, PoolKind::Max, &[1, 3, 4, 6])));
}

// --- products ---------------------------------------------------------------------------

fn mm() -> MatMulTuning {
    MatMulTuning { vector: None, vector_cols: 32, blocked: true, tile: 64, small_tile: 16 }
}

#[test]
fn a_stack_of_products() {
    let p = matmul_fp32(&[3, 1, 70, 8], &[2, 8, 130], mm()).unwrap();
    let mut push = vec![70, 8, 130, 2];
    push.extend([2, 1, 0, 0, 0, 0, 0, 0]);
    push.extend([1, 0, 0, 0, 0, 0, 0, 0]);
    push.extend([0, 1, 0, 0, 0, 0, 0, 0]);
    let want = simple(
        fresh(FLOAT, &[3, 2, 70, 130], 54600, 218400),
        run(
            Kernel::MatMul,
            &[Slot::Input(0), Slot::Input(1), Slot::Output(0)],
            &push,
            grid(3, 2, 6),
        ),
    );
    assert_eq!(p, want);
    let t = MatMulTuning { blocked: false, ..mm() };
    let p = matmul_fp32(&[5, 8], &[8, 17], t).unwrap();
    let Command::Run(d) = &p.commands[0] else { panic!("a kernel runs") };
    assert_eq!((d.kernel, d.grid), (Kernel::MatMulSmall, grid(2, 1, 1)));
    assert!(is_backend(matmul_fp32(&[5, 8], &[7, 17], mm())));
    assert!(is_backend(matmul_fp32(&[8], &[8, 17], mm())));
}

#[test]
fn a_matrix_times_a_vector_is_cut_along_its_depth() {
    let t = MatMulTuning { vector: Some(4), ..mm() };
    let p = matmul_fp32(&[1, 256], &[256, 40], t).unwrap();
    let want = plan(
        vec![fresh(FLOAT, &[1, 40], 40, 160)],
        vec![Scratch::Temporary(640)],
        vec![
            run(
                Kernel::MatVec,
                &[Slot::Input(0), Slot::Input(1), Slot::Scratch(0)],
                &[256, 40, 4, 0],
                grid(2, 4, 1),
            ),
            run(
                Kernel::MatVecReduce,
                &[Slot::Scratch(0), Slot::Output(0)],
                &[256, 40, 4, 0],
                grid(1, 1, 1),
            ),
        ],
    );
    assert_eq!(p, want);
}

#[test]
fn gemm_reads_its_flags() {
    let n = with_float(with_int(node("Gemm"), "transB", 1), "alpha", 0.5);
    let p = gemm(&n, &[2, 3], &[20, 3], Some(&[20]), 16).unwrap();
    let want = simple(
        fresh(FLOAT, &[2, 20], 40, 160),
        run(
            Kernel::Gemm,
            &[Slot::Input(0), Slot::Input(1), Slot::Input(2), Slot::Output(0)],
            &[2, 3, 20, 6, 0.5f32.to_bits(), 1.0f32.to_bits(), 1, 20],
            grid(2, 1, 1),
        ),
    );
    assert_eq!(p, want);
    let p = gemm(&with_int(node("Gemm"), "transA", 1), &[3, 2], &[3, 5], None, 16).unwrap();
    let Command::Run(d) = &p.commands[0] else { panic!("a kernel runs") };
    assert_eq!(d.slots[2], Slot::Zero);
    assert_eq!(d.push[3], 1);
    assert_eq!(&d.push[6..], &[1, 1]);
    assert!(is_backend(gemm(&node("Gemm"), &[2, 3], &[4, 5], None, 16)));
    assert!(is_backend(gemm(&node("Gemm"), &[2, 3], &[3, 5], Some(&[1, 1, 1]), 16)));
}

fn nbits_node(k: i64, n: i64) -> NodeIr {
    let x = with_int(with_int(node("MatMulNBits"), "K", k), "N", n);
    with_int(with_int(x, "bits", 4), "block_size", 32)
}

#[test]
fn four_bit_weights_choose_a_kernel() {
    let t = NbitsTuning {
        scalar: false,
        split_max_rows: 0,
        wave: Some(32),
        default_wave: 64,
        group: 256,
    };
    let w = |n: usize| Extent { dtype: UINT8, elem_count: n };
    let s = |n: usize| Extent { dtype: FLOAT, elem_count: n };
    let slots = [Slot::Input(0), Slot::Input(1), Slot::Input(2), Slot::Output(0)];
    let p = matmul_nbits_q4(&nbits_node(64, 40), &[2, 64], 128, w(1280), s(80), t).unwrap();
    let want = simple(
        fresh(FLOAT, &[2, 40], 80, 320),
        run(
            Kernel::MatMulNbits(NbitsKind::SplitK, Some(32)),
            &slots,
            &[2, 64, 40],
            grid(2, 1, 2),
        ),
    );
    assert_eq!(p, want);
    let kernel = |t: NbitsTuning, k: i64, n: i64, rows: i64| {
        let count = (k * n) as usize;
        let p = matmul_nbits_q4(
            &nbits_node(k, n),
            &[rows, k],
            (rows * k) as usize,
            w(count / 2),
            s(count / 32),
            t,
        )
        .unwrap();
        let Command::Run(d) = &p.commands[0] else { panic!("a kernel runs") };
        (d.kernel, d.grid)
    };
    let plain = NbitsTuning { wave: Some(64), ..t };
    assert_eq!(
        kernel(plain, 64, 4, 3),
        (Kernel::MatMulNbits(NbitsKind::SplitK, None), grid(3, 1, 1))
    );
    let few = NbitsTuning { split_max_rows: 1, ..plain };
    assert_eq!(
        kernel(few, 64, 4, 3),
        (Kernel::MatMulNbits(NbitsKind::Tiled, None), grid(12, 1, 1))
    );
    let scalar = NbitsTuning { scalar: true, ..plain };
    assert_eq!(
        kernel(scalar, 64, 100, 3),
        (Kernel::MatMulNbits(NbitsKind::Scalar, None), grid(2, 1, 1))
    );
    assert_eq!(
        kernel(plain, 40, 4, 1),
        (Kernel::MatMulNbits(NbitsKind::Tiled, None), grid(4, 1, 1))
    );
    assert!(is_backend(matmul_nbits_q4(&nbits_node(64, 40), &[2, 64], 128, w(7), s(80), t)));
    assert!(is_backend(matmul_nbits_q4(&nbits_node(64, 40), &[2, 32], 64, w(1280), s(80), t)));
}

fn int_tuning() -> IntTuning {
    IntTuning { tiles: None, dot: true, tile: 16 }
}

#[test]
fn integer_products_pack_their_weights_once() {
    assert_eq!(int_sizes(&[3, 5, 8], &[8, 20]), Some((15, 8, 20)));
    assert_eq!(int_sizes(&[3, 6], &[6, 20]), None);
    let source = HostTensor { dtype: INT8, shape: vec![8, 20], data: vec![1; 160] };
    let p = matmul_integer(&[15, 8], &[8, 20], false, true, "b", true, Some(source), int_tuning()).unwrap();
    let key = PackedKey { name: "b".into(), rows: 8, cols: 20 };
    let want = plan(
        vec![fresh(INT32, &[15, 20], 300, 1200)],
        vec![Scratch::Kept(key, 160), Scratch::Temporary(160)],
        vec![
            Command::Upload(1, vec![1; 160]),
            run(
                Kernel::PackColumns,
                &[Slot::Scratch(1), Slot::Scratch(0)],
                &[8, 20, SIGN_FLIP_WORD],
                grid(2, 1, 1),
            ),
            run(
                Kernel::IntProductDot,
                &[
                    Slot::Input(0),
                    Slot::Scratch(0),
                    Slot::Input(2),
                    Slot::Input(3),
                    Slot::Output(0),
                ],
                &[15, 2, 20, 0, 0, SIGN_FLIP_BYTE],
                grid(2, 1, 1),
            ),
        ],
    );
    assert_eq!(p, want);
    let t = IntTuning { tiles: Some(3), ..int_tuning() };
    let p = matmul_integer(&[16, 16], &[16, 16], false, false, "b", true, None, t).unwrap();
    assert_eq!(p.scratch.len(), 1);
    let Some(Command::Run(d)) = p.commands.last() else { panic!("a kernel runs") };
    assert_eq!(d.kernel, Kernel::IntProductTiles(3));
    assert_eq!(d.push, vec![16, 16, 16, 0, 0]);
}

#[test]
fn a_pointwise_integer_convolution_is_a_product() {
    let o = IntOperands {
        x_signed: true,
        w_signed: true,
        x_zero: true,
        w_zero: false,
        w_constant: true,
    };
    let g = geometry(&node("ConvInteger"), &[1, 8, 5], &[4, 8, 1]);
    let p = conv_integer(g, o, "w", int_tuning()).unwrap();
    assert_eq!(p.outputs, vec![fresh(INT32, &[1, 4, 5], 20, 80)]);
    let key = PackedKey { name: "w#sign-flip".into(), rows: 32, cols: 0 };
    assert!(p.scratch.contains(&Scratch::Kept(key, 32)));
    let Some(Command::Run(d)) = p.commands.last() else { panic!("a kernel runs") };
    assert_eq!(d.kernel, Kernel::IntProductDot);
    assert_eq!(d.push, vec![4, 2, 5, 0, SIGN_FLIP_BYTE, SIGN_FLIP_BYTE]);
    assert_eq!(d.slots[2], Slot::Zero);
    assert_eq!(d.slots[3], Slot::Input(2));

    let g = geometry(&with_ints(node("ConvInteger"), "pads", &[1, 1]), &[1, 8, 5], &[4, 8, 3]);
    let mut push = g.push_common();
    push.extend([1, 1]);
    let p = conv_integer(g, o, "w", int_tuning()).unwrap();
    let want = simple(
        fresh(INT32, &[1, 4, 5], 20, 80),
        run(
            Kernel::ConvInteger,
            &[Slot::Input(0), Slot::Input(1), Slot::Input(2), Slot::Zero, Slot::Output(0)],
            &push,
            grid(1, 1, 1),
        ),
    );
    assert_eq!(p, want);
}

#[test]
fn attention_grows_its_context() {
    let n = with_int(with_int(node("GroupQueryAttention"), "num_heads", 2), "kv_num_heads", 1);
    let n = with_int(n, "do_rotary", 1);
    let s = AttentionShapes {
        q: &[1, 2, 8],
        k: &[1, 2, 4],
        v: &[1, 2, 4],
        past_k: &[1, 1, 3, 4],
        past_v: &[1, 1, 3, 4],
        cos: 10,
        sin: 10,
    };
    let sizes = attention_sizes(&n, &s, 100).unwrap();
    let want = AttentionSizes {
        batch: 1,
        seq: 2,
        q_heads: 2,
        kv_heads: 1,
        head_dim: 4,
        width: 8,
        past_len: 3,
        total_len: 5,
        out_count: 16,
        present_count: 20,
    };
    assert_eq!(sizes, want);
    assert!(is_backend(attention_sizes(&n, &s, 4)));
    let few = AttentionShapes { cos: 9, ..s };
    assert!(is_backend(attention_sizes(&n, &few, 100)));
    let half = 0.5f32.to_bits();
    let p = group_query_attention(&n, sizes, half).unwrap();
    let want = plan(
        vec![
            fresh(FLOAT, &[1, 2, 8], 16, 64),
            fresh(FLOAT, &[1, 1, 5, 4], 20, 80),
            fresh(FLOAT, &[1, 1, 5, 4], 20, 80),
        ],
        vec![],
        vec![run(
            Kernel::Attention,
            &[
                Slot::Input(0),
                Slot::Input(1),
                Slot::Input(2),
                Slot::Input(3),
                Slot::Input(4),
                Slot::Input(7),
                Slot::Input(8),
                Slot::Output(0),
                Slot::Output(1),
                Slot::Output(2),
            ],
            &[1, 2, 2, 1, 4, 3, 5, half, 1],
            grid(2, 2, 1),
        )],
    );
    assert_eq!(p, want);
}

// --- quantization -----------------------------------------------------------------------

#[test]
fn dynamic_quantization_takes_three_kernels() {
    let p = dynamic_quantize(vec![1000], 1000).unwrap();
    let want = plan(
        vec![
            fresh(UINT8, &[1000], 1000, 1000),
            fresh(FLOAT, &[], 1, 4),
            fresh(UINT8, &[], 1, 4),
        ],
        vec![Scratch::Temporary(32)],
        vec![
            run(
                Kernel::QuantizePartial,
                &[Slot::Input(0), Slot::Scratch(0)],
                &[1000],
                grid(4, 1, 1),
            ),
            run(
                Kernel::QuantizeFinal,
                &[Slot::Scratch(0), Slot::Output(1), Slot::Output(2)],
                &[4],
                grid(1, 1, 1),
            ),
            run(
                Kernel::QuantizeApply,
                &[Slot::Input(0), Slot::Output(1), Slot::Output(2), Slot::Output(0)],
                &[1000],
                grid(1, 1, 1),
            ),
        ],
    );
    assert_eq!(p, want);
    assert!(is_backend(dynamic_quantize(vec![0], 0)));
}

#[test]
fn scales_belong_to_the_tensor_or_to_an_axis() {
    let n = node("DequantizeLinear");
    assert_eq!(qdq_layout(&n, &[2, 3, 4], &[]).unwrap(), (1, 1));
    assert_eq!(qdq_layout(&n, &[2, 3, 4], &[3]).unwrap(), (4, 3));
    assert_eq!(qdq_layout(&with_int(node("D"), "axis", -1), &[2, 3, 4], &[4]).unwrap(), (1, 4));
    assert!(is_backend(qdq_layout(&n, &[2, 3, 4], &[5])));
    assert!(is_backend(qdq_layout(&n, &[2, 3, 4], &[3, 1])));
}

#[test]
fn quantization_and_back() {
    let n = node("DequantizeLinear");
    let p = dequantize_linear(&n, vec![2, 3], INT8, &[3], true).unwrap();
    let want = simple(
        fresh(FLOAT, &[2, 3], 6, 24),
        run(
            Kernel::Dequantize,
            &[Slot::Input(0), Slot::Input(1), Slot::Input(2), Slot::Output(0)],
            &[6, 1, 3, 1, 1],
            grid(1, 1, 1),
        ),
    );
    assert_eq!(p, want);
    let p = dequantize_linear(&n, vec![2, 3], INT32, &[], false).unwrap();
    let Command::Run(d) = &p.commands[0] else { panic!("a kernel runs") };
    assert_eq!((d.kernel, d.slots[2]), (Kernel::DequantizeInt32, Slot::Zero));
    assert!(is_backend(dequantize_linear(&n, vec![2, 3], FLOAT, &[], false)));

    let p = quantize_linear(&n, vec![5000], &[], Some(INT8)).unwrap();
    let Command::Run(d) = &p.commands[0] else { panic!("a kernel runs") };
    assert_eq!(p.outputs, vec![fresh(INT8, &[5000], 5000, 5000)]);
    assert_eq!((d.push.clone(), d.grid), (vec![5000, 1, 1, 1, 1], grid(5, 1, 1)));
    let p = quantize_linear(&n, vec![4], &[], None).unwrap();
    assert_eq!(p.outputs[0].dtype, UINT8);
    let typed = with_int(node("Q"), "output_dtype", i64::from(INT8));
    assert_eq!(quantize_linear(&typed, vec![4], &[], None).unwrap().outputs[0].dtype, INT8);
    assert!(is_backend(quantize_linear(&n, vec![4], &[], Some(INT32))));
}

// --- sampling ---------------------------------------------------------------------------

#[test]
fn a_reduction_leaves_or_drops_its_axis() {
    let n = with_ints(node("ReduceSum"), "axes", &[-2]);
    let p = reduce(&n, ReduceKind::Sum, vec![2, 3, 4], 24).unwrap();
    let want = simple(
        fresh(FLOAT, &[2, 1, 4], 8, 32),
        run(
            Kernel::Reduce(ReduceKind::Sum),
            &in0_out0(),
            &[3, 4, 8, 256],
            grid(1, 1, 1),
        ),
    );
    assert_eq!(p, want);
    let n = with_int(with_ints(node("ReduceMax"), "axes", &[1]), "keepdims", 0);
    let p = reduce(&n, ReduceKind::Max, vec![2, 3, 4], 24).unwrap();
    assert_eq!(p.outputs, vec![fresh(FLOAT, &[2, 4], 8, 32)]);
    assert!(is_backend(reduce(&node("ReduceSum"), ReduceKind::Sum, vec![2], 2)));
    let two = with_ints(node("ReduceSum"), "axes", &[0, 1]);
    assert!(is_backend(reduce(&two, ReduceKind::Sum, vec![2, 2], 4)));
}

#[test]
fn sampling_on_a_grid() {
    let n = with_int(with_text(node("GridSample"), "padding_mode", "border"), "align_corners", 1);
    let p = grid_sample(&n, &[1, 2, 5, 6], &[1, 3, 4, 2]).unwrap();
    let want = simple(
        fresh(FLOAT, &[1, 2, 3, 4], 24, 96),
        run(
            Kernel::GridSample,
            &[Slot::Input(0), Slot::Input(1), Slot::Output(0)],
            &[24, 2, 5, 6, 3, 4, 1, PAD_BORDER, 256],
            grid(1, 1, 1),
        ),
    );
    assert_eq!(p, want);
    assert!(is_backend(grid_sample(&n, &[1, 2, 5, 6], &[2, 3, 4, 2])));
    assert!(is_backend(grid_sample(&n, &[1, 2, 5, 6], &[1, 3, 4, 3])));
}

fn bits(v: &[f32]) -> Vec<u32> {
    v.iter().map(|x| x.to_bits()).collect()
}

#[test]
fn sizes_of_a_resampling() {
    let s = bits(&[1.0, 1.0, 2.0, 1.5]);
    let z = resize_sizes(&[1, 3, 5, 5], Some(&s), None).unwrap();
    let want = ResizeSizes {
        h_in: 5,
        w_in: 5,
        h_out: 10,
        w_out: 7,
        scales: Some(Scales { h: 2.0f32.to_bits(), w: 1.5f32.to_bits() }),
    };
    assert_eq!(z, want);
    let z = resize_sizes(&[1, 3, 5], None, Some(&bits(&[1.0, 3.0, 8.0]))).unwrap();
    assert_eq!((z.h_in, z.h_out, z.w_out, z.scales), (1, 1, 8, None));
    assert!(is_backend(resize_sizes(&[1, 3, 5], None, None)));
    assert!(is_backend(resize_sizes(&[1, 3, 5], None, Some(&bits(&[2.0, 3.0, 8.0])))));
    assert!(is_backend(resize_sizes(&[1, 3, 5], Some(&bits(&[1.0, 2.0, 8.0])), None)));
    assert!(is_backend(resize_sizes(&[1, 3, 5], Some(&bits(&[1.0, 1.0, 0.1])), None)));
    let near = bits(&[1.0000005, 0.9999995, 2.0]);
    assert!(resize_sizes(&[1, 3, 5], Some(&near), None).is_ok());
    let far = bits(&[1.000002, 1.0, 2.0]);
    assert!(is_backend(resize_sizes(&[1, 3, 5], Some(&far), None)));
}

#[test]
fn near_one_is_where_the_difference_is_small() {
    for k in 0..40u32 {
        for b in [1.0f32.to_bits() + k, 1.0f32.to_bits() - k] {
            let near = (f32::from_bits(b) - 1.0).abs() < 1e-6;
            let s = [b, 1.0f32.to_bits(), 2.0f32.to_bits()];
            assert_eq!(resize_sizes(&[1, 3, 5], Some(&s), None).is_ok(), near);
        }
    }
}

#[test]
fn output_sizes_are_products_rounded_down() {
    for (dim, scale) in [(7i64, 0.7f32), (10, 1.1), (3, 3.3333333), (1000003, 0.999), (5, 1e6)] {
        let s = bits(&[1.0, 1.0, scale]);
        let z = resize_sizes(&[1, 1, dim], Some(&s), None).unwrap();
        assert_eq!(z.w_out, (dim as f32 * scale).floor() as i64);
    }
}

#[test]
fn a_resampling_plan() {
    let n = with_text(node("Resize"), "mode", "linear");
    let z = ResizeSizes {
        h_in: 2,
        w_in: 3,
        h_out: 4,
        w_out: 6,
        scales: Some(Scales { h: 2.0f32.to_bits(), w: 2.0f32.to_bits() }),
    };
    let ratio = Scales { h: 7, w: 8 };
    let p = resize(&n, &[1, 5, 2, 3], z, ratio).unwrap();
    let two = 2.0f32.to_bits();
    let want = simple(
        fresh(FLOAT, &[1, 5, 4, 6], 120, 480),
        run(
            Kernel::Resize,
            &in0_out0(),
            &[
                120,
                5,
                2,
                3,
                4,
                6,
                COORD_HALF_PIXEL,
                MODE_LINEAR,
                NEAREST_ROUND_PREFER_FLOOR,
                CUBIC_COEFFICIENT,
                two,
                two,
            ],
            grid(1, 1, 1),
        ),
    );
    assert_eq!(p, want);
    assert_eq!(CUBIC_COEFFICIENT, (-0.75f32).to_bits());
    let n = with_text(node("Resize"), "coordinate_transformation_mode", "asymmetric");
    let n = with_text(n, "nearest_mode", "floor");
    let z = ResizeSizes { h_in: 1, h_out: 1, scales: None, ..z };
    let p = resize(&n, &[1, 5, 3], z, ratio).unwrap();
    assert_eq!(p.outputs, vec![fresh(FLOAT, &[1, 5, 6], 30, 120)]);
    let Command::Run(d) = &p.commands[0] else { panic!("a kernel runs") };
    assert_eq!(&d.push[6..9], &[COORD_ASYMMETRIC, MODE_NEAREST, NEAREST_FLOOR]);
    assert_eq!(&d.push[10..], &[7, 8]);
    let odd = with_text(node("Resize"), "mode", "area");
    assert!(is_backend(resize(&odd, &[1, 5, 3], z, ratio)));
    let out = with_int(node("Resize"), "exclude_outside", 1);
    assert!(is_backend(resize(&out, &[1, 5, 3], z, ratio)));
}

// --- movement ---------------------------------------------------------------------------

#[test]
fn a_slice_has_a_table() {
    let p = slice_device(&[4, 5], vec![2, 3], &[3, 1], &[-2, 1]).unwrap();
    let want = plan(
        vec![fresh(FLOAT, &[2, 3], 6, 24)],
        vec![Scratch::Temporary(32)],
        vec![
            Command::Upload(0, words(&[2, 3, 5, 1, 3, 1, -2, 1])),
            run(
                Kernel::Slice,
                &[Slot::Input(0), Slot::Scratch(0), Slot::Output(0)],
                &[6, 2],
                grid(1, 1, 1),
            ),
        ],
    );
    assert_eq!(p, want);
}

#[test]
fn a_split_is_one_slice_per_part() {
    let mut n = node("Split");
    n.outputs = vec!["a".into(), "b".into()];
    assert_eq!(split_sizes(&n, &[6, 2], None).unwrap(), (0, vec![3, 3]));
    assert_eq!(split_sizes(&n, &[6, 2], Some(&[2, 4])).unwrap(), (0, vec![2, 4]));
    assert!(is_backend(split_sizes(&n, &[5, 2], None)));
    assert!(is_backend(split_sizes(&n, &[6, 2], Some(&[2, 2, 2]))));
    let old = with_ints(n, "split", &[1, 5]);
    assert_eq!(split_sizes(&old, &[6, 2], Some(&[2, 4])).unwrap(), (0, vec![1, 5]));

    let p = split(&[2, 6], 1, &[2, 4]).unwrap();
    assert_eq!(
        p.outputs,
        vec![fresh(FLOAT, &[2, 2], 4, 16), fresh(FLOAT, &[2, 4], 8, 32)]
    );
    assert_eq!(p.commands[0], Command::Upload(0, words(&[2, 2, 6, 1, 0, 0, 1, 1])));
    assert_eq!(p.commands[2], Command::Upload(1, words(&[2, 4, 6, 1, 0, 2, 1, 1])));
    let last = run(
        Kernel::Slice,
        &[Slot::Input(0), Slot::Scratch(1), Slot::Output(1)],
        &[8, 2],
        grid(1, 1, 1),
    );
    assert_eq!(p.commands[3], last);
}

#[test]
fn a_pad_has_a_table_and_a_value() {
    let p = pad_device(&[2, 3], &[1, -1], &[0, 2], 5.0f32.to_bits()).unwrap();
    let want = plan(
        vec![fresh(FLOAT, &[3, 4], 12, 48)],
        vec![Scratch::Temporary(36)],
        vec![
            Command::Upload(0, words(&[2, 3, 4, 1, -1, 2, 3, 3, 1])),
            run(
                Kernel::Pad,
                &[Slot::Input(0), Slot::Scratch(0), Slot::Output(0)],
                &[12, 2, 5.0f32.to_bits()],
                grid(1, 1, 1),
            ),
        ],
    );
    assert_eq!(p, want);
}

#[test]
fn a_choice_broadcasts_three_operands() {
    assert_eq!(where_shape(&[2, 1], &[3], &[1, 1]).unwrap(), vec![2, 3]);
    let p = where_device(&[2, 1], &[3], &[1, 1]).unwrap();
    let want = plan(
        vec![fresh(FLOAT, &[2, 3], 6, 24)],
        vec![Scratch::Temporary(36)],
        vec![
            Command::Upload(0, words(&[2, 2, 3, 1, 0, 0, 1, 0, 0])),
            run(
                Kernel::Where,
                &[
                    Slot::Input(0),
                    Slot::Input(1),
                    Slot::Input(2),
                    Slot::Output(0),
                    Slot::Scratch(0),
                ],
                &[6],
                grid(1, 1, 1),
            ),
        ],
    );
    assert_eq!(p, want);
    assert!(is_backend(where_device(&[2], &[3], &[1])));
}

#[test]
fn a_gather_normalizes_its_indices() {
    let p = gather_device(&[2, 5, 3], 1, &[2, 1], &[-1, 0]).unwrap();
    let want = plan(
        vec![fresh(FLOAT, &[2, 2, 1, 3], 12, 48)],
        vec![Scratch::Temporary(8)],
        vec![
            Command::Upload(0, words(&[4, 0])),
            run(
                Kernel::Gather,
                &[Slot::Input(0), Slot::Scratch(0), Slot::Output(0)],
                &[12, 3, 2, 5],
                grid(1, 1, 1),
            ),
        ],
    );
    assert_eq!(p, want);
    assert!(is_backend(gather_device(&[2, 5], 2, &[], &[0])));
}

#[test]
fn a_join_writes_each_part_at_its_place() {
    let part = |input: usize, shape: &[i64], n: usize| Joined {
        input,
        shape: shape.to_vec(),
        elem_count: n,
    };
    let parts = vec![part(0, &[2, 3], 6), part(2, &[2, 0], 0), part(3, &[2, 1], 2)];
    let p = concat_device(&parts, -1).unwrap();
    let want = plan(
        vec![fresh(FLOAT, &[2, 4], 8, 32)],
        vec![],
        vec![
            run(
                Kernel::Concat,
                &[Slot::Input(0), Slot::Output(0)],
                &[6, 1, 3, 4, 0],
                grid(1, 1, 1),
            ),
            run(
                Kernel::Concat,
                &[Slot::Input(3), Slot::Output(0)],
                &[2, 1, 1, 4, 3],
                grid(1, 1, 1),
            ),
        ],
    );
    assert_eq!(p, want);
    assert!(is_backend(concat_device(&parts, 2)));
    assert!(is_backend(concat_device(&vec![], 0)));
}

// --- push constants ---------------------------------------------------------------------

#[test]
fn lists_fill_eight_words() {
    let mut push: Vec<u8> = vec![9];
    push_vec4s(&mut push, &[1, 258]);
    assert_eq!(push.len(), 33);
    assert_eq!(&push[..9], &[9, 1, 0, 0, 0, 2, 1, 0, 0]);
    assert!(push[9..].iter().all(|b| *b == 0));
}

#[test]
fn words_are_little_endian() {
    assert_eq!(push_bytes(&vec![1, 0x0102_0304]), vec![1, 0, 0, 0, 4, 3, 2, 1]);
}

#[test]
fn settings_choose_the_four_bit_kernel() {
    let t = NbitsTuning::chosen(None, None, Some(32), 64, 256);
    assert_eq!((t.scalar, t.split_max_rows), (false, 0));
    assert_eq!((t.wave, t.default_wave, t.group), (Some(32), 64, 256));
    assert!(NbitsTuning::chosen(Some("scalar"), None, None, 64, 256).scalar);
    assert!(!NbitsTuning::chosen(Some("Scalar"), None, None, 64, 256).scalar);
    for (text, rows) in [("1", 1), ("+7", 7), ("4294967295", u32::MAX), ("4294967296", 0), ("", 0), ("-1", 0), ("x", 0)] {
        let t = NbitsTuning::chosen(None, Some(text), None, 64, 256);
        assert_eq!(t.split_max_rows, rows, "{text}");
        assert_eq!(t.split_max_rows, text.parse::<u32>().unwrap_or(0));
    }
}

#[test]
fn a_rearranging_attention_has_a_kernel_of_its_own() {
    let n = with_int(with_int(node("GroupQueryAttention"), "num_heads", 2), "kv_num_heads", 1);
    let sizes = AttentionSizes {
        batch: 1,
        seq: 2,
        q_heads: 2,
        kv_heads: 1,
        head_dim: 4,
        width: 8,
        past_len: 3,
        total_len: 5,
        out_count: 16,
        present_count: 20,
    };
    let kernel = |p: onnx_vulkan_core::plan::Plan| match &p.commands[0] {
        Command::Run(d) => d.kernel,
        _ => panic!("an attention is one dispatch"),
    };
    assert_eq!(kernel(group_query_attention(&n, sizes, 0).unwrap()), Kernel::Attention);
    let told = with_int(n, "qk_reorder", 1);
    assert_eq!(kernel(group_query_attention(&told, sizes, 0).unwrap()), Kernel::AttentionRearranged);
}

#[test]
fn empty_gathers_have_no_elements() {
    let p = gather_device(&[4, 3], 0, &[0], &[]).unwrap();
    assert_eq!((p.outputs[0].shape.clone(), p.outputs[0].elem_count), (vec![0, 3], 0));
    assert_eq!(p.commands.len(), 1);
    let p = gather_device(&[4, 0], 0, &[2], &[1, 2]).unwrap();
    assert_eq!((p.outputs[0].shape.clone(), p.outputs[0].elem_count), (vec![2, 0], 0));
}

#[test]
fn only_constant_weights_are_kept() {
    let b = HostTensor::new(UINT8, vec![8, 4], vec![1; 32]);
    let p = matmul_integer(&[2, 8], &[8, 4], false, false, "b", false, Some(b), int_tuning()).unwrap();
    assert!(p.scratch.iter().all(|s| matches!(s, Scratch::Temporary(_))));
    assert!(is_backend(matmul_integer(&[2, 8], &[8, 4], false, false, "b", false, None, int_tuning())));
}
