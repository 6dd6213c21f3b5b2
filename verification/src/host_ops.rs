//! Small tensors computed on the host: shapes, indices, masks.
//!
//! Every operation is given by a function on [`TensorView`], which says for each input
//! either the resulting tensor or the kind of error.

pub mod arith;
pub mod choice_laws;
pub mod element_laws;
pub mod fill;
pub mod gather;
pub mod join;
pub mod lanes;
pub mod ready;
pub mod scan;
pub mod select;
pub mod type_laws;

pub use arith::{binary, compare, floor, modulo, not, BinOp, CmpOp};
pub use fill::{bcast_strides, const_of_shape, expand, pad, row_major_strides, tile};
pub use gather::{dequantize_linear, expected_bytes, gather, gather_elements};
pub use join::scatter_nd;
pub use scan::{cumsum, reduce, top_k, RedOp};
pub use select::{slice, slice_params, where_op};

use crate::bytes::{
    all_le32, all_le64, lemma_all_le32, lemma_all_le32_len, lemma_all_le64, lemma_all_le64_len, push_i64, push_u32, read_u32, read_u64,
    signed32, signed64, to_signed32, to_signed64, u32_at, u64_at,
};
use crate::error::{invalid_tensor, Kind, Result};
use crate::floats::{f32_from_i64, f32_to_i64, from_i64_spec, to_i64_spec};
use crate::graph::{code_bits, size_of_code, storage_len, storage_of, TensorView};
use crate::shape::{count_of, element_count, lemma_count};
use vstd::prelude::*;

verus! {

pub const FLOAT: i32 = 1;

pub const UINT8: i32 = 2;

pub const INT8: i32 = 3;

pub const INT32: i32 = 6;

pub const INT64: i32 = 7;

pub const BOOL: i32 = 9;

/// What an operation gives: a value or the kind of error.
pub type Outcome<T> = core::result::Result<T, Kind>;

/// A tensor in host memory: the bytes of its elements in row-major order.
#[derive(Debug, Clone, PartialEq)]
pub struct HostTensor {
    pub dtype: i32,
    pub shape: Vec<i64>,
    pub data: Vec<u8>,
}

impl View for HostTensor {
    type V = TensorView;

    open spec fn view(&self) -> TensorView {
        TensorView { dtype: self.dtype, shape: self.shape@, data: self.data@ }
    }
}

/// Whether `r` is the tensor, or the kind of error, that `s` says.
pub open spec fn gives(r: Result<HostTensor>, s: Outcome<TensorView>) -> bool {
    match (r, s) {
        (Ok(t), Ok(v)) => t@ == v,
        (Err(e), Err(k)) => e.kind() == k,
        _ => false,
    }
}

/// What is wrong with a tensor: its shape, or storage that does not suit shape and type.
pub open spec fn fault(t: TensorView) -> Option<Kind> {
    match count_of(t.shape) {
        None => Some(Kind::Shape),
        Some(n) => match storage_of(t.dtype, n) {
            None => Some(Kind::Tensor),
            Some(s) => if t.data.len() == s {
                None
            } else {
                Some(Kind::Tensor)
            },
        },
    }
}

/// The number of elements, or zero for a shape that cannot be counted.
pub open spec fn elements(t: TensorView) -> int {
    match count_of(t.shape) {
        Some(n) => n,
        None => 0,
    }
}

/// Whether elements of this type can be read as numbers.
pub open spec fn is_readable(dtype: i32) -> bool {
    dtype == INT64 || dtype == INT32 || dtype == BOOL || dtype == UINT8 || dtype == INT8 || dtype
        == FLOAT
}

/// Element `i` as an integer.
pub open spec fn int_at(dtype: i32, data: Seq<u8>, i: int) -> int {
    if dtype == INT64 {
        signed64(u64_at(data, 8 * i))
    } else if dtype == INT32 {
        signed32(u32_at(data, 4 * i))
    } else if dtype == BOOL {
        if data[i] != 0 {
            1
        } else {
            0
        }
    } else if dtype == UINT8 {
        data[i] as int
    } else if dtype == INT8 {
        if data[i] >= 128 {
            data[i] - 256
        } else {
            data[i] as int
        }
    } else {
        to_i64_spec(u32_at(data, 4 * i) as u32)
    }
}

/// The elements as integers; fractions of floating-point numbers are dropped.
pub open spec fn ints_of(t: TensorView) -> Outcome<Seq<i64>> {
    match fault(t) {
        Some(k) => Err(k),
        None => if is_readable(t.dtype) {
            Ok(Seq::new(elements(t) as nat, |i: int| int_at(t.dtype, t.data, i) as i64))
        } else {
            Err(Kind::Tensor)
        },
    }
}

/// The elements as the bits of single-precision numbers.
pub open spec fn floats_of(t: TensorView) -> Outcome<Seq<u32>> {
    match fault(t) {
        Some(k) => Err(k),
        None => if t.dtype == FLOAT {
            Ok(Seq::new(elements(t) as nat, |i: int| u32_at(t.data, 4 * i) as u32))
        } else if is_readable(t.dtype) {
            Ok(
                Seq::new(
                    elements(t) as nat,
                    |i: int| from_i64_spec(int_at(t.dtype, t.data, i)),
                ),
            )
        } else {
            Err(Kind::Tensor)
        },
    }
}

/// The 64-bit integer tensor with the elements `v`.
pub open spec fn int_tensor(shape: Seq<i64>, v: Seq<i64>) -> TensorView {
    TensorView { dtype: INT64, shape, data: all_le64(v) }
}

/// The single-precision tensor with the elements `v`, given as bits.
pub open spec fn float_tensor(shape: Seq<i64>, v: Seq<u32>) -> TensorView {
    TensorView { dtype: FLOAT, shape, data: all_le32(v) }
}

/// The bits of `v` that a 32-bit integer keeps.
pub open spec fn low32(v: i64) -> u32 {
    (v as int % 0x1_0000_0000) as u32
}

/// The bits of `v` that a byte keeps.
pub open spec fn low8(v: i64) -> u8 {
    (v as int % 0x100) as u8
}

/// 1 where the number is not zero, else 0.
pub open spec fn truth(v: i64) -> u8 {
    if v != 0 {
        1
    } else {
        0
    }
}

/// The tensor with its elements converted to the type `to`.
pub open spec fn cast_of(t: TensorView, to: i32) -> Outcome<TensorView> {
    match fault(t) {
        Some(k) => Err(k),
        None => if t.dtype == to {
            Ok(t)
        } else if to == FLOAT {
            match floats_of(t) {
                Ok(v) => Ok(float_tensor(t.shape, v)),
                Err(k) => Err(k),
            }
        } else if to == INT64 || to == INT32 || to == BOOL {
            match ints_of(t) {
                Ok(v) => Ok(
                    TensorView {
                        dtype: to,
                        shape: t.shape,
                        data: if to == INT64 {
                            all_le64(v)
                        } else if to == INT32 {
                            all_le32(v.map_values(|e: i64| low32(e)))
                        } else {
                            v.map_values(|e: i64| truth(e))
                        },
                    },
                ),
                Err(k) => Err(k),
            }
        } else {
            Err(Kind::Tensor)
        },
    }
}

/// A computed tensor in the type of the tensor that it was computed from, bytes among them: what a
/// byte cannot hold is cut off.
pub open spec fn returned_of(t: TensorView, to: i32) -> Outcome<TensorView> {
    if t.dtype != to && (to == UINT8 || to == INT8) {
        match ints_of(t) {
            Ok(v) => Ok(
                TensorView {
                    dtype: to,
                    shape: t.shape,
                    data: v.map_values(|e: i64| low8(e)),
                },
            ),
            Err(k) => Err(k),
        }
    } else {
        cast_of(t, to)
    }
}

/// A sound tensor with elements of whole bytes holds that many bytes for each.
pub proof fn lemma_sound_len(t: TensorView)
    requires
        fault(t) is None,
    ensures
        count_of(t.shape) == Some(elements(t)),
        0 <= elements(t) <= usize::MAX,
        size_of_code(t.dtype) > 0 ==> t.data.len() == elements(t) * size_of_code(t.dtype),
        is_readable(t.dtype) ==> t.data.len() == elements(t) * size_of_code(t.dtype)
            && size_of_code(t.dtype) == if t.dtype == INT64 {
            8int
        } else if t.dtype == INT32 || t.dtype == FLOAT {
            4
        } else {
            1
        },
{
    lemma_count(t.shape);
    let n = elements(t);
    let es = size_of_code(t.dtype) as int;
    if es > 0 {
        let bits = code_bits(t.dtype)->0 as int;
        assert(bits == 8 * es);
        assert(n * bits == 8 * (n * es)) by (nonlinear_arith)
            requires
                bits == 8 * es,
        ;
    }
}

impl HostTensor {
    /// The number of elements, or zero for a shape that cannot be counted.
    pub fn elem_count(&self) -> (r: usize)
        ensures
            r == elements(self@),
    {
        match element_count(self.shape.as_slice()) {
            Ok(n) => n,
            Err(_) => 0,
        }
    }

    pub fn new(dtype: i32, shape: Vec<i64>, data: Vec<u8>) -> (r: Self)
        ensures
            r == (HostTensor { dtype, shape, data }),
    {
        HostTensor { dtype, shape, data }
    }

    /// A copy of the tensor.
    pub fn duplicate(&self) -> (r: HostTensor)
        ensures
            r@ == self@,
    {
        let shape = self.shape.clone();
        let data = self.data.clone();
        assert(shape@ =~= self.shape@);
        assert(data@ =~= self.data@);
        HostTensor { dtype: self.dtype, shape, data }
    }

    /// Tests that type, shape and storage agree.
    pub fn validate(&self) -> (r: Result<()>)
        ensures
            match r {
                Ok(_) => fault(self@) is None,
                Err(e) => fault(self@) == Some(e.kind()),
            },
    {
        let count: usize = match element_count(self.shape.as_slice()) {
            Ok(n) => n,
            Err(e) => {
                return Err(e);
            },
        };
        match storage_len(self.dtype, count) {
            Some(expected) => if self.data.len() == expected {
                Ok(())
            } else {
                Err(invalid_tensor("storage does not match type and shape"))
            },
            None => Err(invalid_tensor("type without fixed storage")),
        }
    }

    /// The tensor of 64-bit integers with the elements `v`.
    pub fn from_i64(shape: Vec<i64>, v: &[i64]) -> (r: Self)
        ensures
            r@ == int_tensor(shape@, v@),
    {
        HostTensor { dtype: INT64, shape, data: int_bytes(v) }
    }

    /// The tensor of single-precision numbers with the elements `v`, given as bits.
    pub fn from_f32(shape: Vec<i64>, v: &[u32]) -> (r: Self)
        ensures
            r@ == float_tensor(shape@, v@),
    {
        HostTensor { dtype: FLOAT, shape, data: word_bytes(v) }
    }

    /// The elements as integers.
    pub fn to_i64(&self) -> (r: Result<Vec<i64>>)
        ensures
            match r {
                Ok(v) => ints_of(self@) == Ok::<Seq<i64>, Kind>(v@),
                Err(e) => ints_of(self@) == Err::<Seq<i64>, Kind>(e.kind()),
            },
    {
        match self.validate() {
            Ok(_) => {},
            Err(e) => {
                return Err(e);
            },
        }
        if !(self.dtype == INT64 || self.dtype == INT32 || self.dtype == BOOL || self.dtype == UINT8
            || self.dtype == INT8 || self.dtype == FLOAT) {
            return Err(invalid_tensor("type cannot be read as integers"));
        }
        proof {
            lemma_sound_len(self@);
        }
        let n: usize = self.elem_count();
        let mut v: Vec<i64> = Vec::new();
        let mut i: usize = 0;
        while i < n
            invariant
                n == elements(self@),
                i <= n,
                is_readable(self.dtype),
                self.data@.len() == n * size_of_code(self.dtype),
                size_of_code(self.dtype) == if self.dtype == INT64 {
                    8int
                } else if self.dtype == INT32 || self.dtype == FLOAT {
                    4
                } else {
                    1
                },
                v@ == Seq::new(i as nat, |k: int| int_at(self.dtype, self.data@, k) as i64),
            decreases n - i,
        {
            let len: usize = self.data.len();
            let e: i64 = self.read_int(i);
            v.push(e);
            i += 1;
            assert(v@ =~= Seq::new(i as nat, |k: int| int_at(self.dtype, self.data@, k) as i64));
        }
        Ok(v)
    }

    fn read_int(&self, i: usize) -> (r: i64)
        requires
            is_readable(self.dtype),
            (i + 1) * (if self.dtype == INT64 {
                8int
            } else if self.dtype == INT32 || self.dtype == FLOAT {
                4
            } else {
                1
            }) <= self.data@.len(),
        ensures
            r == int_at(self.dtype, self.data@, i as int),
    {
        let len: usize = self.data.len();
        let data = self.data.as_slice();
        if self.dtype == INT64 {
            to_signed64(read_u64(data, 8 * i))
        } else if self.dtype == INT32 {
            to_signed32(read_u32(data, 4 * i))
        } else if self.dtype == BOOL {
            if data[i] != 0 {
                1
            } else {
                0
            }
        } else if self.dtype == UINT8 {
            data[i] as i64
        } else if self.dtype == INT8 {
            if data[i] >= 128 {
                data[i] as i64 - 256
            } else {
                data[i] as i64
            }
        } else {
            f32_to_i64(read_u32(data, 4 * i))
        }
    }

    /// The elements as the bits of single-precision numbers.
    pub fn to_f32(&self) -> (r: Result<Vec<u32>>)
        ensures
            match r {
                Ok(v) => floats_of(self@) == Ok::<Seq<u32>, Kind>(v@),
                Err(e) => floats_of(self@) == Err::<Seq<u32>, Kind>(e.kind()),
            },
    {
        if self.dtype == FLOAT {
            match self.validate() {
                Ok(_) => {},
                Err(e) => {
                    return Err(e);
                },
            }
            proof {
                lemma_sound_len(self@);
            }
            let n: usize = self.elem_count();
            let mut v: Vec<u32> = Vec::new();
            let mut i: usize = 0;
            while i < n
                invariant
                    n == elements(self@),
                    i <= n,
                    self.data@.len() == n * 4,
                    v@ == Seq::new(i as nat, |k: int| u32_at(self.data@, 4 * k) as u32),
                decreases n - i,
            {
                let len: usize = self.data.len();
                v.push(read_u32(self.data.as_slice(), 4 * i));
                i += 1;
                assert(v@ =~= Seq::new(i as nat, |k: int| u32_at(self.data@, 4 * k) as u32));
            }
            return Ok(v);
        }
        let ints = match self.to_i64() {
            Ok(v) => v,
            Err(e) => {
                return Err(e);
            },
        };
        let n: usize = ints.len();
        let mut v: Vec<u32> = Vec::new();
        let mut i: usize = 0;
        let ghost want = floats_of(self@)->Ok_0;
        while i < n
            invariant
                n == ints@.len(),
                i <= n,
                v@ == Seq::new(i as nat, |k: int| from_i64_spec(ints@[k] as int)),
            decreases n - i,
        {
            v.push(f32_from_i64(ints[i]));
            i += 1;
            assert(v@ =~= Seq::new(i as nat, |k: int| from_i64_spec(ints@[k] as int)));
        }
        proof {
            lemma_sound_len(self@);
            assert forall|k: int| 0 <= k < n implies ints@[k] as int == int_at(
                self.dtype,
                self.data@,
                k,
            ) by {
                lemma_int_range(self.dtype, self.data@, k);
            }
            assert(v@ =~= want);
        }
        Ok(v)
    }
}

/// What an element is read as is a 64-bit integer.
pub proof fn lemma_int_range(dtype: i32, data: Seq<u8>, i: int)
    ensures
        i64::MIN <= int_at(dtype, data, i) <= i64::MAX,
{
    reveal(u32_at);
    reveal(u64_at);
}

/// The bytes of the integers of `v`.
pub fn int_bytes(v: &[i64]) -> (r: Vec<u8>)
    ensures
        r@ == all_le64(v@),
{
    let mut data: Vec<u8> = Vec::new();
    let n: usize = v.len();
    let mut i: usize = 0;
    assert(v@.take(0) =~= Seq::empty());
    while i < n
        invariant
            n == v@.len(),
            i <= n,
            data@ == all_le64(v@.take(i as int)),
        decreases n - i,
    {
        push_i64(&mut data, v[i]);
        assert(v@.take(i + 1).drop_last() =~= v@.take(i as int));
        i += 1;
    }
    assert(v@.take(n as int) =~= v@);
    data
}

/// The bytes of the words of `v`.
pub fn word_bytes(v: &[u32]) -> (r: Vec<u8>)
    ensures
        r@ == all_le32(v@),
{
    let mut data: Vec<u8> = Vec::new();
    let n: usize = v.len();
    let mut i: usize = 0;
    assert(v@.take(0) =~= Seq::empty());
    while i < n
        invariant
            n == v@.len(),
            i <= n,
            data@ == all_le32(v@.take(i as int)),
        decreases n - i,
    {
        push_u32(&mut data, v[i]);
        assert(v@.take(i + 1).drop_last() =~= v@.take(i as int));
        i += 1;
    }
    assert(v@.take(n as int) =~= v@);
    data
}

/// A copy of a list of dimensions.
pub fn copy_dims(s: &[i64]) -> (r: Vec<i64>)
    ensures
        r@ == s@,
{
    let mut r: Vec<i64> = Vec::new();
    r.extend_from_slice(s);
    assert(r@ =~= s@);
    r
}

/// Converts the elements to the type `to`.
pub fn cast(x: &HostTensor, to: i32) -> (r: Result<HostTensor>)
    ensures
        gives(r, cast_of(x@, to)),
{
    match x.validate() {
        Ok(_) => {},
        Err(e) => {
            return Err(e);
        },
    }
    if x.dtype == to {
        return Ok(x.duplicate());
    }
    if to == FLOAT {
        return match x.to_f32() {
            Ok(v) => Ok(HostTensor::from_f32(copy_dims(x.shape.as_slice()), v.as_slice())),
            Err(e) => Err(e),
        };
    }
    if !(to == INT64 || to == INT32 || to == BOOL) {
        return Err(invalid_tensor("target type not supported"));
    }
    let v = match x.to_i64() {
        Ok(v) => v,
        Err(e) => {
            return Err(e);
        },
    };
    let shape = copy_dims(x.shape.as_slice());
    if to == INT64 {
        Ok(HostTensor::from_i64(shape, v.as_slice()))
    } else if to == INT32 {
        let n: usize = v.len();
        let mut words: Vec<u32> = Vec::new();
        let mut i: usize = 0;
        while i < n
            invariant
                n == v@.len(),
                i <= n,
                words@ == v@.take(i as int).map_values(|e: i64| low32(e)),
            decreases n - i,
        {
            let u: u64 = crate::bytes::bits_of(v[i]);
            let w: u32 = (u % 0x1_0000_0000) as u32;
            assert(w == low32(v@[i as int]));
            words.push(w);
            i += 1;
            assert(words@ =~= v@.take(i as int).map_values(|e: i64| low32(e)));
        }
        assert(v@.take(n as int) =~= v@);
        Ok(HostTensor { dtype: INT32, shape, data: word_bytes(words.as_slice()) })
    } else {
        let n: usize = v.len();
        let mut data: Vec<u8> = Vec::new();
        let mut i: usize = 0;
        while i < n
            invariant
                n == v@.len(),
                i <= n,
                data@ == v@.take(i as int).map_values(|e: i64| truth(e)),
            decreases n - i,
        {
            data.push(
                if v[i] != 0 {
                    1
                } else {
                    0
                },
            );
            i += 1;
            assert(data@ =~= v@.take(i as int).map_values(|e: i64| truth(e)));
        }
        assert(v@.take(n as int) =~= v@);
        Ok(HostTensor { dtype: BOOL, shape, data })
    }
}

/// Converts what was computed from a tensor back to the type of that tensor.
pub(crate) fn returned(x: &HostTensor, to: i32) -> (r: Result<HostTensor>)
    ensures
        gives(r, returned_of(x@, to)),
{
    if x.dtype == to || !(to == UINT8 || to == INT8) {
        return cast(x, to);
    }
    let v = match x.to_i64() {
        Ok(v) => v,
        Err(e) => {
            return Err(e);
        },
    };
    let n: usize = v.len();
    let mut data: Vec<u8> = Vec::new();
    let mut i: usize = 0;
    while i < n
        invariant
            n == v@.len(),
            i <= n,
            data@ == v@.take(i as int).map_values(|e: i64| low8(e)),
        decreases n - i,
    {
        let u: u64 = crate::bytes::bits_of(v[i]);
        let b: u8 = (u % 0x100) as u8;
        assert(b == low8(v@[i as int]));
        data.push(b);
        i += 1;
        assert(data@ =~= v@.take(i as int).map_values(|e: i64| low8(e)));
    }
    assert(v@.take(n as int) =~= v@);
    Ok(HostTensor { dtype: to, shape: copy_dims(x.shape.as_slice()), data })
}

/// Integers written to a tensor are read back from it.
pub proof fn law_int_round_trip(shape: Seq<i64>, v: Seq<i64>)
    requires
        count_of(shape) == Some(v.len() as int),
        64 * v.len() + 7 <= usize::MAX,
    ensures
        ints_of(int_tensor(shape, v)) == Ok::<Seq<i64>, Kind>(v),
{
    let t = int_tensor(shape, v);
    lemma_all_le64_len(v);
    assert(fault(t) is None);
    let got = ints_of(t)->Ok_0;
    assert forall|i: int| 0 <= i < v.len() implies got[i] == v[i] by {
        lemma_all_le64(v, i);
    }
    assert(got =~= v);
}

/// Single-precision numbers written to a tensor are read back from it, bit by bit.
pub proof fn law_float_round_trip(shape: Seq<i64>, v: Seq<u32>)
    requires
        count_of(shape) == Some(v.len() as int),
        32 * v.len() + 7 <= usize::MAX,
    ensures
        floats_of(float_tensor(shape, v)) == Ok::<Seq<u32>, Kind>(v),
{
    let t = float_tensor(shape, v);
    lemma_all_le32_len(v);
    assert(fault(t) is None);
    let got = floats_of(t)->Ok_0;
    assert forall|i: int| 0 <= i < v.len() implies got[i] == v[i] by {
        lemma_all_le32(v, i);
    }
    assert(got =~= v);
}

/// Casting a tensor to its own type changes nothing.
pub proof fn law_cast_same(t: TensorView)
    requires
        fault(t) is None,
    ensures
        cast_of(t, t.dtype) == Ok::<TensorView, Kind>(t),
{
}

} // verus!
