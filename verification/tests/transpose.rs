use onnx_vulkan_core::host_ops::{FLOAT, INT64, INT8, UINT8};
use onnx_vulkan_core::interp::transpose::{
    host_transpose, host_transpose_2d, transpose_cached_initializer, transpose_device,
    transpose_perm, transpose_route, transposed_key, Route,
};
use onnx_vulkan_core::plan::{Command, Dispatch, Grid, Kernel, Produced, Scratch, Slot, Storage};
use onnx_vulkan_core::{AttrValue, HostTensor, NameMap, NodeIr};

fn reference_2d(in_data: &[u8], r: usize, c: usize) -> Vec<u8> {
    let mut out = vec![0u8; r * c];
    for a in 0..c {
        for b in 0..r {
            out[a * r + b] = in_data[b * c + a];
        }
    }
    out
}

fn run(dtype: i32, r: usize, c: usize, seed: u64) -> bool {
    let n = r * c;
    let mut state = seed;
    let mut in_data = Vec::with_capacity(n);
    for i in 0..n {
        state = state.wrapping_mul(6364136223846793005).wrapping_add(1);
        in_data.push((state >> 33) as u8 ^ (i as u8));
    }
    let h = HostTensor::new(dtype, vec![r as i64, c as i64], in_data.clone());
    let got = host_transpose_2d(&h, &[c as i64, r as i64], 1).unwrap();
    let want = reference_2d(&in_data, r, c);
    assert_eq!(got.shape, vec![c as i64, r as i64]);
    got.data == want
}

#[test]
fn u8_small() {
    assert!(run(UINT8, 100, 7, 1));
    assert!(run(UINT8, 1, 1, 2));
    assert!(run(UINT8, 1, 64, 3));
    assert!(run(UINT8, 64, 1, 4));
}

#[test]
fn u8_dimensions_not_multiples_of_tiles() {
    assert!(run(UINT8, 256 * 3 + 17, 64 * 2 + 9, 5));
    assert!(run(UINT8, 31, 57, 6));
    assert!(run(INT8, 200, 200, 7));
}

#[test]
fn u8_real_tts_shape_134m() {
    assert!(run(UINT8, 65536, 2048, 8));
}

fn node(perm: Option<&[i64]>) -> NodeIr {
    let mut n = NodeIr {
        domain: String::new(),
        op: "Transpose".into(),
        since_version: 13,
        name: "t".into(),
        inputs: vec!["x".into()],
        outputs: vec!["y".into()],
        attrs: NameMap::new(),
    };
    if let Some(p) = perm {
        n.attrs.insert("perm".into(), AttrValue::Ints(p.to_vec()));
    }
    n
}

#[test]
fn axes_are_reversed_unless_told_otherwise() {
    assert_eq!(transpose_perm(&node(None), 3).unwrap(), vec![2, 1, 0]);
    assert_eq!(transpose_perm(&node(Some(&[1, 0, 2])), 3).unwrap(), vec![1, 0, 2]);
    assert!(transpose_perm(&node(Some(&[1, 0])), 3).is_err());
}

#[test]
fn elements_of_several_bytes_stay_together() {
    let t = HostTensor::from_i64(vec![2, 3], &[1, 2, 3, 4, 5, 6]);
    let r = host_transpose(&t, &[1, 0]).unwrap();
    assert_eq!(r.shape, vec![3, 2]);
    assert_eq!(r.to_i64().unwrap(), vec![1, 4, 2, 5, 3, 6]);
    assert_eq!(r.dtype, INT64);
}

#[test]
fn any_permutation_of_axes() {
    let t = HostTensor::from_i64(vec![2, 1, 3], &[1, 2, 3, 4, 5, 6]);
    let r = host_transpose(&t, &[2, 0, 1]).unwrap();
    assert_eq!(r.shape, vec![3, 2, 1]);
    assert_eq!(r.to_i64().unwrap(), vec![1, 4, 2, 5, 3, 6]);
}

#[test]
fn a_permutation_and_its_inverse_cancel() {
    let v: Vec<i64> = (0..24).collect();
    let t = HostTensor::from_i64(vec![2, 3, 4], &v);
    let there = host_transpose(&t, &[1, 2, 0]).unwrap();
    let back = host_transpose(&there, &[2, 0, 1]).unwrap();
    assert_eq!(back, t);
}

#[test]
fn axes_outside_of_the_tensor_are_refused() {
    let t = HostTensor::from_i64(vec![2, 1, 3], &[1, 2, 3, 4, 5, 6]);
    assert!(host_transpose(&t, &[0, 1, 3]).is_err());
}

#[test]
fn where_a_transpose_is_done() {
    let shape = [1000i64, 600];
    assert_eq!(transpose_route(true, false, FLOAT, &shape, &[1, 0]), Route::Device);
    assert_eq!(transpose_route(true, false, UINT8, &shape, &[1, 0]), Route::Host);
    assert_eq!(transpose_route(false, true, FLOAT, &shape, &[1, 0]), Route::Kept);
    assert_eq!(transpose_route(false, true, UINT8, &shape, &[1, 0]), Route::Host);
    assert_eq!(transpose_route(false, true, FLOAT, &shape, &[0, 1]), Route::Host);
    assert_eq!(transpose_route(false, false, FLOAT, &shape, &[1, 0]), Route::Host);
    assert_eq!(transpose_route(false, true, UINT8, &[1000, 1000], &[1, 0]), Route::Host);
    assert_eq!(transpose_route(false, true, UINT8, &[1000, 1001], &[1, 0]), Route::Kept);
}

#[test]
fn the_kernel_gets_strides_by_output_axis() {
    let p = transpose_device(FLOAT, &[2, 3], &[1, 0]).unwrap();
    let mut push = vec![6, 2, 0, 0];
    push.extend([3, 2, 1, 1, 1, 1, 1, 1]);
    push.extend([1, 3, 0, 0, 0, 0, 0, 0]);
    assert_eq!(
        p.commands,
        vec![Command::Run(Dispatch {
            kernel: Kernel::Transpose,
            slots: vec![Slot::Input(0), Slot::Output(0)],
            push,
            grid: Grid { x: 1, y: 1, z: 1 },
        })]
    );
    assert_eq!(
        p.outputs,
        vec![Produced {
            dtype: FLOAT,
            shape: vec![3, 2],
            elem_count: 6,
            storage: Storage::New(24),
        }]
    );
    assert!(transpose_device(FLOAT, &[1; 9], &[0, 1, 2, 3, 4, 5, 6, 7, 8]).is_err());
}

#[test]
fn a_constant_is_transposed_once() {
    let p = transpose_cached_initializer("w", UINT8, &[2, 3], Some(vec![1, 4, 2, 5, 3, 6])).unwrap();
    let key = transposed_key("w", UINT8, 2, 3);
    assert_eq!(p.scratch, vec![Scratch::Kept(key, 8)]);
    assert_eq!(p.outputs[0].shape, vec![3, 2]);
    assert_eq!(p.outputs[0].storage, Storage::Scratch(0));
    assert_eq!(p.commands, vec![Command::Upload(0, vec![1, 4, 2, 5, 3, 6])]);
    let again = transpose_cached_initializer("w", UINT8, &[2, 3], None).unwrap();
    assert_eq!(again.commands, vec![]);
    assert_ne!(transposed_key("w", UINT8, 2, 3), transposed_key("w", INT8, 2, 3));
}
