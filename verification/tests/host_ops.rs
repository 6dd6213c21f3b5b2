use onnx_vulkan_core::host_ops::join;
use onnx_vulkan_core::host_ops::{
    bcast_strides, binary, cast, compare, const_of_shape, cumsum, dequantize_linear, expand,
    expected_bytes, floor, gather, gather_elements, modulo, not, pad, reduce, row_major_strides,
    scatter_nd, slice, slice_params, tile, top_k, where_op, BinOp, CmpOp, RedOp, BOOL, FLOAT, INT32,
    INT64, INT8, UINT8,
};
use onnx_vulkan_core::{broadcast, element_count, Error, HostTensor};

fn f32_op(op: BinOp, x: u32, y: u32) -> u32 {
    let (x, y) = (f32::from_bits(x), f32::from_bits(y));
    let r = match op {
        BinOp::Add => x + y,
        BinOp::Sub => x - y,
        BinOp::Mul => x * y,
        BinOp::Div => x / y,
        BinOp::Pow => x.powf(y),
        BinOp::Min => x.min(y),
        BinOp::Max => x.max(y),
    };
    r.to_bits()
}

fn f32_rem(x: u32, y: u32) -> u32 {
    (f32::from_bits(x) % f32::from_bits(y)).to_bits()
}

fn add_to(sum: u64, x: u32) -> u64 {
    (f64::from_bits(sum) + f32::from_bits(x) as f64).to_bits()
}

fn narrow(sum: u64) -> u32 {
    (f64::from_bits(sum) as f32).to_bits()
}

fn floats(shape: &[i64], v: &[f32]) -> HostTensor {
    let bits: Vec<u32> = v.iter().map(|x| x.to_bits()).collect();
    HostTensor::from_f32(shape.to_vec(), &bits)
}

fn ints(shape: &[i64], v: &[i64]) -> HostTensor {
    HostTensor::from_i64(shape.to_vec(), v)
}

fn bytes(dtype: i32, shape: &[i64], v: &[u8]) -> HostTensor {
    HostTensor::new(dtype, shape.to_vec(), v.to_vec())
}

fn as_floats(t: &HostTensor) -> Vec<f32> {
    t.to_f32().unwrap().into_iter().map(f32::from_bits).collect()
}

#[test]
fn binary_broadcasts_integer_shape_math() {
    let matrix = HostTensor::from_i64(vec![2, 2], &[1, 2, 3, 4]);
    let row = HostTensor::from_i64(vec![2], &[10, 20]);

    let result = binary(&matrix, &row, BinOp::Add, f32_op).expect("shapes broadcast");

    assert_eq!(result.shape, vec![2, 2]);
    assert_eq!(result.to_i64().expect("tensor int64"), vec![11, 22, 13, 24]);
}

#[test]
fn gather_normalizes_negative_indices() {
    let values = HostTensor::from_i64(vec![3], &[10, 20, 30]);
    let indices = HostTensor::from_i64(vec![2], &[-1, 0]);

    let result = gather(&values, &indices, 0).expect("indices in range");

    assert_eq!(result.shape, vec![2]);
    assert_eq!(result.to_i64().expect("tensor int64"), vec![30, 10]);
}

#[test]
fn slice_supports_negative_steps() {
    let values = HostTensor::from_i64(vec![5], &[0, 1, 2, 3, 4]);
    let (shape, starts, steps) =
        slice_params(&values.shape, &[4], &[-6], None, Some(&[-1])).expect("range in bounds");

    let result = slice(&values, &shape, &starts, &steps).expect("slice runs");

    assert_eq!(result.to_i64().expect("tensor int64"), vec![4, 3, 2, 1, 0]);
}

#[test]
fn integer_division_by_zero_is_an_error() {
    let numerator = HostTensor::from_i64(vec![], &[1]);
    let denominator = HostTensor::from_i64(vec![], &[0]);

    assert!(matches!(
        binary(&numerator, &denominator, BinOp::Div, f32_op),
        Err(Error::InvalidTensor(_))
    ));
}

#[test]
fn rejects_incoherent_tensor_storage() {
    let tensor = HostTensor::new(INT64, vec![2], vec![0; 8]);

    assert!(matches!(tensor.to_i64(), Err(Error::InvalidTensor(_))));
}

#[test]
fn integers_are_read_back_as_written() {
    let v = [0, 1, -1, i64::MAX, i64::MIN, 0x0102_0304_0506_0708];
    let t = ints(&[6], &v);
    assert_eq!(t.data.len(), 48);
    assert_eq!(t.data[40..48], [8, 7, 6, 5, 4, 3, 2, 1]);
    assert_eq!(t.to_i64().unwrap(), v);
}

#[test]
fn elements_of_every_type_are_read() {
    assert_eq!(bytes(BOOL, &[3], &[0, 1, 7]).to_i64().unwrap(), [0, 1, 1]);
    assert_eq!(bytes(UINT8, &[2], &[3, 255]).to_i64().unwrap(), [3, 255]);
    assert_eq!(bytes(INT8, &[2], &[3, 255]).to_i64().unwrap(), [3, -1]);
    assert_eq!(bytes(INT32, &[1], &[254, 255, 255, 255]).to_i64().unwrap(), [-2]);
    assert_eq!(as_floats(&bytes(INT8, &[2], &[3, 255])), [3.0, -1.0]);
    assert!(bytes(10, &[1], &[0, 0]).to_i64().is_err());
    assert!(bytes(10, &[1], &[0, 0]).to_f32().is_err());
}

#[test]
fn floats_become_integers_as_a_cast_does() {
    let v = [
        0.0f32, -0.0, 0.5, -0.5, 1.0, -1.0, 1.5, -2.75, 8388607.5, 16777216.0, -16777217.0, 1e10,
        -1e10, 9.2e18, 9.3e18, -9.3e18, f32::INFINITY, f32::NEG_INFINITY, f32::NAN, 1e-45, 123456.789,
    ];
    let got = floats(&[v.len() as i64], &v).to_i64().unwrap();
    let want: Vec<i64> = v.iter().map(|&x| x as i64).collect();
    assert_eq!(got, want);
}

#[test]
fn integers_become_floats_as_a_cast_does() {
    let v = [
        0i64, 1, -1, 7, 16777215, 16777216, 16777217, 16777219, -16777217, 33554434, 33554435,
        33554438, 1 << 40, (1 << 40) + 1, i64::MAX, i64::MIN, i64::MAX - 1, 123456789012345678,
    ];
    let t = cast(&ints(&[v.len() as i64], &v), FLOAT).unwrap();
    let want: Vec<f32> = v.iter().map(|&x| x as f32).collect();
    assert_eq!(as_floats(&t), want);
}

#[test]
fn casts_keep_what_the_target_can_hold() {
    let t = ints(&[3], &[1, -1, 0x1_0000_0005]);
    assert_eq!(cast(&t, INT32).unwrap().to_i64().unwrap(), [1, -1, 5]);
    assert_eq!(cast(&t, BOOL).unwrap().data, [1, 1, 1]);
    assert_eq!(cast(&t, INT64).unwrap(), t);
    assert!(matches!(cast(&t, UINT8), Err(Error::InvalidTensor(_))));
    assert!(matches!(cast(&t, INT8), Err(Error::InvalidTensor(_))));
    assert!(matches!(cast(&t, 16), Err(Error::InvalidTensor(_))));
    assert_eq!(cast(&floats(&[2], &[2.9, -2.9]), INT64).unwrap().to_i64().unwrap(), [2, -2]);
}

#[test]
fn counting_elements_refuses_what_cannot_be_counted() {
    assert_eq!(element_count(&[2, 3, 4]).unwrap(), 24);
    assert_eq!(element_count(&[]).unwrap(), 1);
    assert_eq!(element_count(&[5, 0]).unwrap(), 0);
    assert!(matches!(element_count(&[2, -1]), Err(Error::InvalidShape(_))));
    assert!(matches!(element_count(&[i64::MAX, i64::MAX]), Err(Error::InvalidShape(_))));
    let t = HostTensor::new(FLOAT, vec![-1], vec![]);
    assert!(matches!(t.validate(), Err(Error::InvalidShape(_))));
    assert_eq!(t.elem_count(), 0);
    assert_eq!(expected_bytes(FLOAT, &[2, 3]), 24);
    assert_eq!(expected_bytes(FLOAT, &[-1]), 0);
    assert_eq!(expected_bytes(8, &[2]), 0);
}

#[test]
fn broadcasting_aligns_at_the_right() {
    let bc = broadcast(&[2, 1, 3], &[4, 1]).unwrap();
    assert_eq!(bc.out_shape, [2, 4, 3]);
    assert_eq!(bc.out_strides, [12, 3, 1]);
    assert_eq!(bc.a_strides, [3, 0, 1]);
    assert_eq!(bc.b_strides, [0, 1, 0]);
    assert!(matches!(broadcast(&[2], &[3]), Err(Error::InvalidShape(_))));
    assert!(matches!(broadcast(&[-1], &[3]), Err(Error::InvalidShape(_))));
    assert_eq!(broadcast(&[0, 3], &[1, 3]).unwrap().out_shape, [0, 3]);
}

#[test]
fn integer_arithmetic() {
    let a = ints(&[4], &[7, -7, 7, -7]);
    let b = ints(&[4], &[2, 2, -2, -2]);
    let run = |op| binary(&a, &b, op, f32_op).unwrap().to_i64().unwrap();
    assert_eq!(run(BinOp::Sub), [5, -9, 9, -5]);
    assert_eq!(run(BinOp::Mul), [14, -14, -14, 14]);
    assert_eq!(run(BinOp::Div), [3, -3, -3, 3]);
    assert_eq!(run(BinOp::Min), [2, -7, -2, -7]);
    assert_eq!(run(BinOp::Max), [7, 2, 7, -2]);
    let p = binary(&ints(&[4], &[2, -3, 0, -1]), &ints(&[4], &[10, 3, 0, 9]), BinOp::Pow, f32_op);
    assert_eq!(p.unwrap().to_i64().unwrap(), [1024, -27, 1, -1]);
    let bad = binary(&ints(&[], &[2]), &ints(&[], &[-1]), BinOp::Pow, f32_op);
    assert!(matches!(bad, Err(Error::InvalidTensor(_))));
}

#[test]
fn mixed_operands_are_computed_in_single_precision() {
    let a = ints(&[2, 1], &[1, 2]);
    let b = floats(&[2], &[0.5, -4.0]);
    let t = binary(&a, &b, BinOp::Mul, f32_op).unwrap();
    assert_eq!(t.dtype, FLOAT);
    assert_eq!(t.shape, [2, 2]);
    assert_eq!(as_floats(&t), [0.5, -4.0, 1.0, -8.0]);
    assert_eq!(
        as_floats(&binary(&floats(&[1], &[9.0]), &floats(&[1], &[0.5]), BinOp::Pow, f32_op).unwrap()),
        [3.0]
    );
    assert!(matches!(
        binary(&ints(&[2], &[1, 2]), &ints(&[3], &[1, 2, 3]), BinOp::Add, f32_op),
        Err(Error::InvalidShape(_))
    ));
}

#[test]
fn comparisons() {
    let a = ints(&[3], &[1, 2, 3]);
    let b = ints(&[], &[2]);
    let run = |op| compare(&a, &b, op).unwrap();
    assert_eq!(run(CmpOp::Equal).data, [0, 1, 0]);
    assert_eq!(run(CmpOp::Less).data, [1, 0, 0]);
    assert_eq!(run(CmpOp::Greater).data, [0, 0, 1]);
    assert_eq!(run(CmpOp::LessOrEqual).data, [1, 1, 0]);
    assert_eq!(run(CmpOp::Equal).dtype, BOOL);
    assert_eq!(compare(&a, &ints(&[3], &[0, 1, 5]), CmpOp::And).unwrap().data, [0, 1, 1]);
}

#[test]
fn float_comparisons_follow_the_numbers() {
    let v = [
        0.0f32, -0.0, 1.0, -1.0, 1e-45, -1e-45, 1e38, -1e38, f32::INFINITY, f32::NEG_INFINITY,
        f32::NAN, 1.0000001, 0.99999994, 2.0,
    ];
    for &x in &v {
        for &y in &v {
            let (a, b) = (floats(&[], &[x]), floats(&[], &[y]));
            let run = |op| compare(&a, &b, op).unwrap().data[0] == 1;
            assert_eq!(run(CmpOp::Equal), x == y, "{x} == {y}");
            assert_eq!(run(CmpOp::Less), x < y, "{x} < {y}");
            assert_eq!(run(CmpOp::Greater), x > y, "{x} > {y}");
            assert_eq!(run(CmpOp::LessOrEqual), x <= y, "{x} <= {y}");
            assert_eq!(run(CmpOp::And), x != 0.0 && y != 0.0, "{x} && {y}");
        }
    }
}

#[test]
fn the_two_remainders_differ_in_sign() {
    let a = ints(&[4], &[-7, 7, -7, 7]);
    let b = ints(&[4], &[5, -5, -5, 5]);
    assert_eq!(modulo(&a, &b, false, f32_rem).unwrap().to_i64().unwrap(), [3, -3, -2, 2]);
    assert_eq!(modulo(&a, &b, true, f32_rem).unwrap().to_i64().unwrap(), [-2, 2, -2, 2]);
    let narrow = bytes(INT32, &[1], &[249, 255, 255, 255]);
    let r = modulo(&narrow, &ints(&[], &[5]), false, f32_rem).unwrap();
    assert_eq!((r.dtype, r.to_i64().unwrap()), (INT32, vec![3]));
    assert!(modulo(&a, &ints(&[], &[0]), true, f32_rem).is_err());
    assert!(modulo(&floats(&[], &[1.0]), &floats(&[], &[2.0]), false, f32_rem).is_err());
    let f = modulo(&floats(&[], &[-7.5]), &floats(&[], &[2.0]), true, f32_rem).unwrap();
    assert_eq!(as_floats(&f), [-1.5]);
}

#[test]
fn rounding_down() {
    let v = [
        0.0f32, -0.0, 0.5, -0.5, 1.0, -1.0, 1.5, -1.5, 1.99999, -1.00001, 8388607.5, -8388607.5, 1e20,
        -1e20, f32::INFINITY, f32::NEG_INFINITY, 123456.7, -123456.7, 1e-45, -1e-45,
    ];
    let got = floor(&floats(&[v.len() as i64], &v)).unwrap().to_f32().unwrap();
    let want: Vec<u32> = v.iter().map(|x| x.floor().to_bits()).collect();
    assert_eq!(got, want);
    let t = ints(&[2], &[3, -4]);
    assert_eq!(floor(&t).unwrap(), t);
}

#[test]
fn negation() {
    let t = not(&bytes(BOOL, &[3], &[0, 1, 0])).unwrap();
    assert_eq!((t.dtype, t.data), (BOOL, vec![1, 0, 1]));
}

#[test]
fn reductions_along_an_axis() {
    let t = ints(&[2, 3], &[1, 5, 3, -4, 2, -9]);
    let run = |axis, op, keep| reduce(&t, axis, op, keep).unwrap();
    assert_eq!(run(1, RedOp::Sum, false).to_i64().unwrap(), [9, -11]);
    assert_eq!(run(1, RedOp::Sum, true).shape, [2, 1]);
    assert_eq!(run(0, RedOp::Max, false).to_i64().unwrap(), [1, 5, 3]);
    assert_eq!(run(0, RedOp::Min, false).to_i64().unwrap(), [-4, 2, -9]);
    assert_eq!(run(1, RedOp::Mean, false).to_i64().unwrap(), [3, -3]);
    assert!(matches!(reduce(&t, 2, RedOp::Sum, true), Err(Error::InvalidTensor(_))));
    let mask = bytes(BOOL, &[3], &[1, 0, 1]);
    assert_eq!(reduce(&mask, 0, RedOp::Max, false).unwrap(), bytes(BOOL, &[], &[1]));
}

#[test]
fn running_sums() {
    let t = ints(&[2, 3], &[1, 2, 3, 4, 5, 6]);
    let run = |axis, exclusive, reverse| {
        cumsum(&t, axis, exclusive, reverse, add_to, narrow).unwrap().to_i64().unwrap()
    };
    assert_eq!(run(1, false, false), [1, 3, 6, 4, 9, 15]);
    assert_eq!(run(-1, true, false), [0, 1, 3, 0, 4, 9]);
    assert_eq!(run(1, false, true), [6, 5, 3, 15, 11, 6]);
    assert_eq!(run(0, true, true), [4, 5, 6, 0, 0, 0]);
    assert!(cumsum(&t, 2, false, false, add_to, narrow).is_err());
    let f = cumsum(&floats(&[3], &[0.5, 0.25, -1.0]), 0, false, false, add_to, narrow).unwrap();
    assert_eq!(as_floats(&f), [0.5, 0.75, -0.25]);
}

#[test]
fn running_sums_of_large_integers_are_those_of_doubles() {
    let v = [i64::MAX, 1, i64::MAX, 3, -5, i64::MIN, 9007199254740993];
    let t = ints(&[7], &v);
    let got = cumsum(&t, 0, false, false, add_to, narrow).unwrap().to_i64().unwrap();
    let mut acc = 0f64;
    let want: Vec<i64> = v
        .iter()
        .map(|&x| {
            acc += x as f64;
            acc as i64
        })
        .collect();
    assert_eq!(got, want);
}

#[test]
fn the_first_along_an_axis() {
    let t = floats(&[2, 4], &[1.0, 4.0, 4.0, -2.0, 0.5, -0.0, 0.0, 9.0]);
    let (v, i) = top_k(&t, 2, 1, true).unwrap();
    assert_eq!(v.shape, [2, 2]);
    assert_eq!(as_floats(&v), [4.0, 4.0, 9.0, 0.5]);
    assert_eq!(i.to_i64().unwrap(), [1, 2, 3, 0]);
    let (v, i) = top_k(&t, 2, -1, false).unwrap();
    assert_eq!(as_floats(&v), [-2.0, 1.0, -0.0, 0.0]);
    assert_eq!(i.to_i64().unwrap(), [3, 0, 1, 2]);
    let (v, i) = top_k(&ints(&[3, 2], &[1, 6, 2, 5, 3, 4]), 1, 0, true).unwrap();
    assert_eq!((v.dtype, v.to_i64().unwrap()), (INT64, vec![3, 6]));
    assert_eq!(i.to_i64().unwrap(), [2, 0]);
    assert!(top_k(&t, 5, 1, true).is_err());
    assert!(top_k(&t, 1, 2, true).is_err());
    assert!(matches!(top_k(&ints(&[2, 0], &[]), 1, 1, true), Err(Error::InvalidTensor(_))));
}

#[test]
fn constant_tensors() {
    let t = const_of_shape(vec![2, 2], INT64, &7i64.to_le_bytes()).unwrap();
    assert_eq!(t.to_i64().unwrap(), [7, 7, 7, 7]);
    assert_eq!(const_of_shape(vec![3], FLOAT, &[]).unwrap().data, [0; 12]);
    assert!(matches!(const_of_shape(vec![1], 8, &[]), Err(Error::InvalidTensor(_))));
    assert!(matches!(const_of_shape(vec![-1], FLOAT, &[]), Err(Error::InvalidShape(_))));
}

#[test]
fn expanding_and_tiling() {
    let t = ints(&[2, 1], &[1, 2]);
    let e = expand(&t, &[3, 1, 2]).unwrap();
    assert_eq!(e.shape, [3, 2, 2]);
    assert_eq!(e.to_i64().unwrap(), [1, 1, 2, 2, 1, 1, 2, 2, 1, 1, 2, 2]);
    assert!(expand(&t, &[3, 2]).is_err());
    let r = tile(&t, &[2, 3]).unwrap();
    assert_eq!(r.shape, [4, 3]);
    assert_eq!(r.to_i64().unwrap(), [1, 1, 1, 2, 2, 2, 1, 1, 1, 2, 2, 2]);
    assert!(tile(&t, &[2]).is_err());
    assert!(tile(&t, &[2, -1]).is_err());
    assert_eq!(tile(&t, &[0, 1]).unwrap().data.len(), 0);
}

#[test]
fn strides() {
    assert_eq!(row_major_strides(&[2, 3, 4]), [12, 4, 1]);
    assert_eq!(row_major_strides(&[2, 0, 4]), [0, 4, 1]);
    assert_eq!(bcast_strides(&[3, 1], &[2, 3, 4]), [0, 1, 0]);
}

#[test]
fn padding() {
    let t = ints(&[2, 2], &[1, 2, 3, 4]);
    let p = pad(&t, &[1, 0], &[0, 1], &9i64.to_le_bytes()).unwrap();
    assert_eq!(p.shape, [3, 3]);
    assert_eq!(p.to_i64().unwrap(), [9, 9, 9, 1, 2, 9, 3, 4, 9]);
    let cut = pad(&t, &[-1, 0], &[0, -1], &[]).unwrap();
    assert_eq!((cut.shape.clone(), cut.to_i64().unwrap()), (vec![1, 1], vec![3]));
    assert_eq!(pad(&t, &[1, 0], &[0, 0], &[]).unwrap().to_i64().unwrap(), [0, 0, 1, 2, 3, 4]);
    assert!(pad(&t, &[1], &[0], &[]).is_err());
}

#[test]
fn choosing_by_condition() {
    let c = bytes(BOOL, &[2, 1], &[1, 0]);
    let x = ints(&[1, 2], &[1, 2]);
    let y = ints(&[], &[9]);
    let w = where_op(&c, &x, &y, &[2, 2]).unwrap();
    assert_eq!(w.to_i64().unwrap(), [1, 2, 9, 9]);
    assert!(matches!(where_op(&c, &x, &y, &[4]), Err(Error::InvalidTensor(_))));
    assert!(where_op(&c, &x, &floats(&[], &[1.0]), &[2, 2]).is_err());
}

#[test]
fn slices_are_clamped_to_the_tensor() {
    let (out, st, sp) = slice_params(&[5, 4], &[1, -3], &[100, -1], Some(&[0, -1]), Some(&[2, 1])).unwrap();
    assert_eq!((out, st, sp), (vec![2, 2], vec![1, 1], vec![2, 1]));
    let t = ints(&[5, 4], &(0..20).collect::<Vec<_>>());
    assert_eq!(slice(&t, &[2, 2], &[1, 1], &[2, 1]).unwrap().to_i64().unwrap(), [5, 6, 13, 14]);
    assert_eq!(slice_params(&[5], &[3], &[1], None, None).unwrap().0, [0]);
    assert!(slice_params(&[5], &[0], &[1], Some(&[1]), None).is_err());
    assert!(slice_params(&[5], &[0], &[1], None, Some(&[0])).is_err());
    assert!(slice_params(&[5], &[0, 1], &[1], None, None).is_err());
    assert!(matches!(slice_params(&[-5], &[0], &[1], None, None), Err(Error::InvalidShape(_))));
}

#[test]
fn gathering_along_an_inner_axis() {
    let t = ints(&[2, 3, 2], &(0..12).collect::<Vec<_>>());
    let g = gather(&t, &ints(&[1, 2], &[2, 0]), 1).unwrap();
    assert_eq!(g.shape, [2, 1, 2, 2]);
    assert_eq!(g.to_i64().unwrap(), [4, 5, 0, 1, 10, 11, 6, 7]);
    assert!(gather(&t, &ints(&[1], &[3]), 1).is_err());
    assert!(gather(&t, &ints(&[1], &[0]), 3).is_err());
}

#[test]
fn gathering_element_by_element() {
    let t = ints(&[2, 2], &[1, 2, 3, 4]);
    let g = gather_elements(&t, &ints(&[2, 2], &[0, 0, 1, -2]), 1).unwrap();
    assert_eq!(g.to_i64().unwrap(), [1, 1, 4, 3]);
    let g = gather_elements(&t, &ints(&[1, 2], &[1, 0]), 0).unwrap();
    assert_eq!(g.to_i64().unwrap(), [3, 2]);
    assert!(gather_elements(&t, &ints(&[2], &[0, 0]), 0).is_err());
    assert!(gather_elements(&t, &ints(&[1, 1], &[2]), 0).is_err());
}

#[test]
fn scattering_slices() {
    let t = ints(&[3, 2], &[0, 0, 0, 0, 0, 0]);
    let s = scatter_nd(&t, &ints(&[2, 1], &[2, 0]), &ints(&[2, 2], &[1, 2, 3, 4])).unwrap();
    assert_eq!(s.to_i64().unwrap(), [3, 4, 0, 0, 1, 2]);
    let s = scatter_nd(&t, &ints(&[2, 2], &[0, -1, 0, 1]), &ints(&[2], &[7, 8])).unwrap();
    assert_eq!(s.to_i64().unwrap(), [0, 8, 0, 0, 0, 0]);
    assert!(scatter_nd(&t, &ints(&[1, 1], &[3]), &ints(&[1, 2], &[1, 2])).is_err());
    assert!(scatter_nd(&t, &ints(&[1, 1], &[0]), &ints(&[1], &[1])).is_err());
    // slices without elements
    let none = ints(&[2, 0], &[]);
    let s = scatter_nd(&none, &ints(&[1, 1], &[1]), &ints(&[1, 0], &[])).unwrap();
    assert_eq!(s, none);
    assert!(scatter_nd(&none, &ints(&[1, 1], &[2]), &ints(&[1, 0], &[])).is_err());
    assert!(scatter_nd(&none, &ints(&[1, 1], &[1]), &ints(&[1], &[7])).is_err());
}

#[test]
fn joining_along_an_axis() {
    let a = ints(&[2, 1], &[1, 2]);
    let b = ints(&[2, 2], &[3, 4, 5, 6]);
    let c = join::concat(&[a.clone(), b.clone()], 1).unwrap();
    assert_eq!(c.shape, [2, 3]);
    assert_eq!(c.to_i64().unwrap(), [1, 3, 4, 2, 5, 6]);
    assert_eq!(join::concat(&[b.clone(), b.clone()], -2).unwrap().shape, [4, 2]);
    assert!(join::concat(&[], 0).is_err());
    assert!(join::concat(&[a.clone(), b.clone()], 0).is_err());
    assert!(join::concat(&[a, floats(&[2, 1], &[0.0, 0.0])], 0).is_err());
    assert!(join::concat(&[b], 2).is_err());
}

#[test]
fn dequantizing() {
    let x = bytes(INT8, &[3], &[254, 0, 5]);
    let t = dequantize_linear(&x, &floats(&[], &[0.1]), Some(&bytes(INT8, &[], &[255]))).unwrap();
    let want: Vec<f32> = [-2i64, 0, 5].iter().map(|v| (v + 1) as f32 * 0.1).collect();
    assert_eq!(as_floats(&t), want);
    let big = bytes(INT32, &[2], &[255, 255, 255, 127, 0, 0, 0, 128]);
    let t = dequantize_linear(&big, &floats(&[], &[1.0e-39]), None).unwrap();
    let want: Vec<f32> = [i32::MAX as i64, i32::MIN as i64].iter().map(|&v| v as f32 * 1.0e-39).collect();
    assert_eq!(as_floats(&t), want);
    assert!(dequantize_linear(&x, &floats(&[2], &[1.0, 2.0]), None).is_err());
    assert!(dequantize_linear(&x, &floats(&[], &[1.0]), Some(&ints(&[], &[0]))).is_err());
    assert!(dequantize_linear(&x, &floats(&[], &[1.0]), Some(&bytes(INT8, &[2], &[0, 0]))).is_err());
}

#[test]
fn products_are_rounded_as_the_hardware_does() {
    let scales = [
        1.0f32, 0.1, 3.4e38, 1e-38, 1e-45, 7.7e-41, -0.3, 0.0, -0.0, f32::INFINITY, 1.1754944e-38,
        0.33333334, 65504.0, 1.0000001,
    ];
    let values = [0i64, 1, -1, 3, 127, -128, 16777217, 987654321, i64::MAX / 3];
    for s in scales {
        let x = ints(&[values.len() as i64], &values);
        let got = dequantize_linear(&x, &floats(&[], &[s]), None).unwrap();
        for (g, v) in as_floats(&got).iter().zip(values) {
            let want = v as f32 * s;
            assert!(g.to_bits() == want.to_bits() || (g.is_nan() && want.is_nan()), "{v} * {s}: {g}");
        }
    }
}

#[test]
fn bytes_count_as_integers() {
    let bytes = |dtype: i32, v: &[u8]| HostTensor::new(dtype, vec![v.len() as i64], v.to_vec());
    let no_floats = |_: BinOp, _: u32, _: u32| -> u32 { panic!("bytes are no floats") };
    let sum = binary(&bytes(UINT8, &[200]), &bytes(UINT8, &[200]), BinOp::Add, no_floats).unwrap();
    assert_eq!(sum, HostTensor::from_i64(vec![1], &[400]));
    let x = bytes(UINT8, &[3, 7]);
    assert_eq!(floor(&x).unwrap(), x);
    let x = bytes(INT8, &[253, 7]);
    assert_eq!(floor(&x).unwrap(), x);
    let r = reduce(&bytes(UINT8, &[3, 4]), 0, RedOp::Sum, true).unwrap();
    assert_eq!(r, bytes(UINT8, &[7]));
    let r = reduce(&bytes(INT8, &[253, 4]), 0, RedOp::Min, true).unwrap();
    assert_eq!(r, bytes(INT8, &[253]));
}

#[test]
fn selected_values_are_the_elements_themselves() {
    let x = HostTensor::from_i64(vec![3], &[16777217, 5, 16777216]);
    let (v, i) = top_k(&x, 2, 0, true).unwrap();
    assert_eq!(v, HostTensor::from_i64(vec![2], &[16777217, 16777216]));
    assert_eq!(i, HostTensor::from_i64(vec![2], &[0, 2]));
    let x = HostTensor::new(UINT8, vec![3], vec![9, 200, 9]);
    let (v, i) = top_k(&x, 3, 0, false).unwrap();
    assert_eq!(v, HostTensor::new(UINT8, vec![3], vec![9, 9, 200]));
    assert_eq!(i, HostTensor::from_i64(vec![3], &[0, 2, 1]));
}

#[test]
fn empty_dimensions_select_and_gather_nothing() {
    let (out, _, step) = slice_params(&[0], &[-1], &[i64::MIN], None, Some(&[-1])).unwrap();
    assert_eq!((out, step), (vec![0], vec![-1]));
    let data = HostTensor::new(INT64, vec![3, 0], vec![]);
    let g = gather(&data, &HostTensor::from_i64(vec![1], &[0]), 0).unwrap();
    assert_eq!(g, HostTensor::new(INT64, vec![1, 0], vec![]));
    assert!(gather(&data, &HostTensor::from_i64(vec![1], &[3]), 0).is_err());
}
