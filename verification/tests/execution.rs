use onnx_vulkan_core::cache::UploadKey;
use onnx_vulkan_core::execution::{Fetch, Placement, SMALL_HOST_BYTES};
use onnx_vulkan_core::host_ops::{BOOL, FLOAT, INT64, UINT8};
use onnx_vulkan_core::plan::{Kernel, PackedKey, UnaryOp};
use onnx_vulkan_core::{
    device_storage_bytes, DeviceBuffer, DeviceTensor, ElementType, Error, ExecutionEnv, HostTensor,
    InitializerIr, KernelCache, NameMap, PersistentTensor, SharedDeviceBuffer, Tensor,
};

#[test]
fn device_storage_is_word_aligned_and_supports_packed_types() {
    assert_eq!(
        device_storage_bytes(ElementType::Float32 as i32, 3).expect("f32"),
        12
    );
    assert_eq!(
        device_storage_bytes(ElementType::Int4 as i32, 3).expect("int4 packed"),
        4
    );
    assert_eq!(
        device_storage_bytes(ElementType::Uint8 as i32, 0).expect("empty tensor"),
        4
    );
}

#[test]
fn device_storage_rejects_unknown_types() {
    assert!(matches!(
        device_storage_bytes(999, 1),
        Err(Error::InvalidTensor(_))
    ));
}

#[test]
fn every_buffer_holds_whole_words() {
    for n in 0..20 {
        for dtype in [FLOAT, INT64, UINT8, BOOL, ElementType::Float16 as i32, ElementType::Int4 as i32] {
            let b = device_storage_bytes(dtype, n).unwrap();
            assert!(b >= 4 && b % 4 == 0);
        }
    }
}

fn constants() -> NameMap<InitializerIr> {
    let mut m = NameMap::new();
    m.insert(
        "w".to_string(),
        InitializerIr { dtype: FLOAT, shape: vec![2], data: vec![0, 0, 128, 63, 0, 0, 0, 64] },
    );
    m
}

fn device(handle: u64, shape: &[i64]) -> Tensor {
    Tensor::Device(DeviceTensor {
        dtype: FLOAT,
        shape: shape.to_vec(),
        elem_count: shape.iter().product::<i64>() as usize,
        buf: DeviceBuffer::Owned(handle),
    })
}

#[test]
fn values_hide_constants() {
    let c = constants();
    let mut env = ExecutionEnv::new(&c);
    assert!(env.is_initializer("w") && !env.contains_runtime_value("w"));
    assert_eq!(env.shape_of("w").unwrap(), vec![2]);
    assert_eq!(env.set("w", device(7, &[3, 4])), None);
    assert_eq!(env.shape_of("w").unwrap(), vec![3, 4]);
    assert_eq!(env.dtype_of("w").unwrap(), FLOAT);
    assert!(matches!(env.shape_of("v"), Err(Error::InvalidTensor(_))));
    assert!(matches!(env.dtype_of("v"), Err(Error::InvalidTensor(_))));
    assert!(env.on_device("w") && !env.on_device("v"));
}

#[test]
fn replaced_buffers_go_back() {
    let c = constants();
    let mut env = ExecutionEnv::new(&c);
    assert_eq!(env.set("a", device(1, &[1])), None);
    assert_eq!(env.set("a", device(2, &[1])), Some(1));
    assert_eq!(env.set("b", device(3, &[1])), None);
    assert_eq!(env.move_value("b", "a").unwrap(), Some(2));
    assert!(env.move_value("b", "a").is_err());
    assert_eq!(env.move_value("a", "a").unwrap(), None);
    assert_eq!(env.release("a"), Some(3));
    assert_eq!(env.release("a"), None);
}

#[test]
fn a_run_gives_back_what_it_owns() {
    let c = constants();
    let mut env = ExecutionEnv::new(&c);
    env.set("a", device(1, &[1]));
    env.set(
        "b",
        Tensor::Device(DeviceTensor {
            dtype: FLOAT,
            shape: vec![1],
            elem_count: 1,
            buf: DeviceBuffer::Borrowed(2),
        }),
    );
    env.set("c", Tensor::Host(HostTensor::from_i64(vec![1], &[5])));
    env.set("d", device(4, &[1]));
    let taken = env.take_device("d").unwrap();
    assert_eq!(taken.buf, DeviceBuffer::Owned(4));
    assert!(env.take_device("b").is_err());
    assert!(env.take_device("c").is_err());
    assert_eq!(env.finish(), vec![1]);
}

#[test]
fn small_tensors_are_read_back_once() {
    let c = constants();
    let mut env = ExecutionEnv::new(&c);
    env.set("a", device(9, &[2]));
    assert_eq!(env.host("a").unwrap(), Fetch::Download(9, 8));
    let t = env.fetched("a", vec![0, 0, 128, 63, 0, 0, 0, 64]).unwrap();
    assert_eq!(t.to_f32().unwrap(), vec![1.0f32.to_bits(), 2.0f32.to_bits()]);
    assert_eq!(env.host("a").unwrap(), Fetch::Here(t));
    env.set("a", device(9, &[2]));
    assert_eq!(env.host("a").unwrap(), Fetch::Download(9, 8));
    let large = SMALL_HOST_BYTES as i64;
    env.set("l", device(8, &[large]));
    env.fetched("l", vec![0; 4 * large as usize]).unwrap();
    assert_eq!(env.host("l").unwrap(), Fetch::Download(8, 4 * large as usize));
    env.set("e", device(6, &[0]));
    let none = HostTensor { dtype: FLOAT, shape: vec![0], data: vec![] };
    assert_eq!(env.host("e").unwrap(), Fetch::Here(none));
    assert!(env.host("nothing").is_err());
    assert!(env.fetched("w", vec![]).is_err());
}

#[test]
fn constants_are_brought_once_and_values_each_time() {
    let c = constants();
    let mut env = ExecutionEnv::new(&c);
    let key = UploadKey { name: "w".to_string(), dtype: FLOAT, bytes: 8 };
    let p = env.ensure_device("w").unwrap();
    assert_eq!(p, Placement::Constant(key, 8));
    assert_eq!(env.placed("w", &p, 11), None);
    let Tensor::Device(d) = env.value("w").unwrap() else { panic!("it is on the device") };
    assert_eq!(d.buf, DeviceBuffer::Borrowed(11));
    assert_eq!(env.ensure_device("w").unwrap(), Placement::There);

    let bits = [1.0f32.to_bits(), (-2.0f32).to_bits()];
    env.set("f", Tensor::Host(HostTensor::from_f32(vec![2], &bits)));
    let p = env.ensure_device("f").unwrap();
    assert_eq!(p, Placement::Upload(HostTensor::from_f32(vec![2], &bits), 8));
    assert_eq!(env.placed("f", &p, 12), None);
    let Tensor::Device(d) = env.value("f").unwrap() else { panic!("it is on the device") };
    assert_eq!((d.buf, d.dtype), (DeviceBuffer::Owned(12), FLOAT));

    env.set("i", Tensor::Host(HostTensor::from_i64(vec![2], &[1, -2])));
    assert!(matches!(env.ensure_device("i"), Err(Error::InvalidTensor(_))));
    let exact = env.ensure_device_dtype("i").unwrap();
    let same = HostTensor::from_i64(vec![2], &[1, -2]);
    assert_eq!(exact, Placement::Upload(same, 16));
    assert!(env.ensure_device("nothing").is_err());
}

#[test]
fn residence_counts_bytes() {
    let c = constants();
    let mut env = ExecutionEnv::new(&c);
    assert!(env.host_resident_small("w", 8) && !env.host_resident_small("w", 7));
    env.set("a", device(1, &[1]));
    assert!(!env.host_resident_small("a", 100));
    env.set("h", Tensor::Host(HostTensor::from_i64(vec![3], &[1, 2, 3])));
    assert!(env.host_resident_small("h", 24) && !env.host_resident_small("h", 23));
}

#[test]
fn a_tensor_can_outlive_its_run() {
    let owned = DeviceTensor {
        dtype: FLOAT,
        shape: vec![2],
        elem_count: 2,
        buf: DeviceBuffer::Owned(5),
    };
    let kept = PersistentTensor::from_owned(owned).unwrap();
    let Tensor::Device(t) = kept.as_tensor() else { panic!("it is on the device") };
    assert_eq!(t.buffer(), 5);
    assert_eq!(Tensor::Device(t).owned_buffer(), None);
    let lent = DeviceTensor {
        dtype: FLOAT,
        shape: vec![2],
        elem_count: 2,
        buf: DeviceBuffer::Borrowed(5),
    };
    assert!(PersistentTensor::from_owned(lent).is_err());
}

#[test]
fn a_shared_buffer_goes_back_once() {
    let mut b = SharedDeviceBuffer { buffer: Some(3) };
    assert_eq!(b.get(), 3);
    assert_eq!(b.retire(), Some(3));
    assert_eq!(b.retire(), None);
}

#[test]
fn the_cache_keeps_one_handle_per_key() {
    let mut cache = KernelCache::new();
    let relu = Kernel::Unary(UnaryOp::Relu);
    assert_eq!(cache.pipeline(relu), None);
    cache.count_pipeline();
    assert_eq!(cache.keep_pipeline(relu, 1), None);
    assert_eq!(cache.pipeline(relu), Some(1));
    assert_eq!(cache.keep_pipeline(relu, 2), Some(1));
    assert_eq!(cache.pipeline(relu), Some(1));
    assert_eq!(cache.pipeline(Kernel::Unary(UnaryOp::LeakyRelu(1))), None);
    let key = PackedKey { name: "w".to_string(), rows: 2, cols: 3 };
    assert_eq!(cache.packed_weight_cached(&key), None);
    cache.count_packed();
    assert_eq!(cache.keep_packed(key.clone(), 5), None);
    assert_eq!(cache.packed_weight_cached(&key), Some(5));
    let other = PackedKey { cols: 4, ..key };
    assert_eq!(cache.packed_weight_cached(&other), None);
    let up = UploadKey { name: "w".to_string(), dtype: FLOAT, bytes: 8 };
    cache.count_upload();
    assert_eq!(cache.keep_initializer(up.clone(), 6), None);
    assert_eq!(cache.initializer(&up), Some(6));
    assert_eq!(cache.initializer(&UploadKey { bytes: 9, ..up }), None);
    assert_eq!(cache.zero_scalar(), None);
    cache.keep_zero(7);
    assert_eq!(cache.zero_scalar(), Some(7));
    assert_eq!(cache.builds(), (1, 1));
    assert_eq!(cache.uploads(), 1);
    let (pipelines, mut buffers) = cache.retire();
    buffers.sort();
    assert_eq!(pipelines, vec![1]);
    assert_eq!(buffers, vec![5, 6, 7]);
}
