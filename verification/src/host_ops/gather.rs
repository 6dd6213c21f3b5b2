//! Operations by index tensors, joining of tensors, and dequantisation.

use crate::bytes::{picked, push_element};
use crate::error::{invalid_tensor, Kind, Result};
use crate::floats::{f32_from_i64, f32_mul, from_i64_spec, mul_spec};
use crate::graph::{elem_size, size_of_code, storage_len, storage_of, TensorView};
use crate::host_ops::fill::{coord_along, lemma_dim_bound, lemma_element_within, lemma_next_place};
use crate::host_ops::join::lemma_suffix_sign;
use crate::host_ops::scan::front_axis;
use crate::host_ops::{
    copy_dims, elements, fault, float_tensor, floats_of, gives, ints_of, lemma_sound_len,
    HostTensor, Outcome,
};
use crate::num::in_range;
use crate::shape::{
    coord, count_of, element_count, lemma_coord_bound, lemma_count, lemma_nonempty,
    lemma_place_bound, lemma_split_product, lemma_suffix_positive, lemma_whole, place, positive,
    product, strides_of, suffix, weighted,
};
use vstd::prelude::*;

verus! {

/// The index counted from the front, for one counted from either end.
pub open spec fn normal_index(g: int, dim: int) -> int {
    if g < 0 {
        g + dim
    } else {
        g
    }
}

/// Whether the index names an element of a dimension of `dim`.
pub open spec fn index_ok(g: int, dim: int) -> bool {
    0 <= normal_index(g, dim) < dim
}

/// Whether some index names no element.
pub open spec fn bad_index(idx: Seq<i64>, dim: int) -> bool {
    exists|i: int| 0 <= i < idx.len() && !index_ok(#[trigger] idx[i] as int, dim)
}

/// The first index, counted from the front, if it is in range.
fn resolve_index(g: i64, dim: i64) -> (r: Option<usize>)
    requires
        dim >= 0,
    ensures
        match r {
            Some(i) => index_ok(g as int, dim as int) && i == normal_index(g as int, dim as int)
                && dim <= usize::MAX,
            None => !index_ok(g as int, dim as int) || dim > usize::MAX,
        },
{
    if dim as u64 > usize::MAX as u64 {
        return None;
    }
    let i: i64 = if g < 0 {
        g + dim
    } else {
        g
    };
    if i < 0 || i >= dim {
        None
    } else {
        Some(i as usize)
    }
}

// --- gathering along an axis ------------------------------------------------------------

/// The shape with the axis replaced by the shape of the indices.
pub open spec fn gathered_shape(shape: Seq<i64>, idx: Seq<i64>, axis: int) -> Seq<i64> {
    shape.take(axis) + idx + shape.skip(axis + 1)
}

/// The place of the element that stands at place `o` of the gathered tensor: `inner`
/// elements lie behind each along an axis of `dim`.
pub open spec fn gather_source(idx: Seq<i64>, dim: int, inner: int, o: int) -> int {
    let m = idx.len() as int;
    let g = normal_index(idx[o / inner % m] as int, dim);
    o / (inner * m) * (dim * inner) + g * inner + o % inner
}

/// The number of elements of the gathered tensor.
pub open spec fn gather_count(shape: Seq<i64>, m: int, axis: int) -> int {
    product(shape.take(axis)) * (suffix(shape, axis + 1) * m)
}

/// The slices of the tensor along the axis that the indices name.
pub open spec fn gather_of(t: TensorView, indices: TensorView, axis: int) -> Outcome<TensorView> {
    let a = front_axis(axis, t.shape.len() as int);
    let es = size_of_code(t.dtype) as int;
    if let Some(k) = fault(t) {
        Err(k)
    } else if let Some(k) = fault(indices) {
        Err(k)
    } else if es == 0 || !(0 <= a < t.shape.len()) {
        Err(Kind::Tensor)
    } else {
        match ints_of(indices) {
            Err(k) => Err(k),
            Ok(idx) => if bad_index(idx, t.shape[a] as int) {
                Err(Kind::Tensor)
            } else {
                Ok(
                    TensorView {
                        dtype: t.dtype,
                        shape: gathered_shape(t.shape, indices.shape, a),
                        data: if idx.len() == 0 {
                            Seq::empty()
                        } else {
                            picked(
                                t.data,
                                es,
                                gather_count(t.shape, idx.len() as int, a),
                                |o: int|
                                    gather_source(
                                        idx,
                                        t.shape[a] as int,
                                        suffix(t.shape, a + 1),
                                        o,
                                    ),
                            )
                        },
                    },
                )
            },
        }
    }
}

/// Whether all dimensions but the axis have elements.
pub open spec fn positive_beside(shape: Seq<i64>, axis: int) -> bool {
    forall|k: int| 0 <= k < shape.len() && k != axis ==> #[trigger] shape[k] > 0
}

pub proof fn lemma_gather_bound(outer: int, dim: int, inner: int, m: int, o: int, g: int)
    requires
        inner >= 1,
        m >= 1,
        0 <= o < outer * (inner * m),
        0 <= g < dim,
    ensures
        0 <= o / (inner * m) < outer,
        0 <= o / inner % m < m,
        0 <= o / (inner * m) * (dim * inner),
        0 <= g * inner,
        0 <= o / (inner * m) * (dim * inner) + g * inner + o % inner < outer * (dim * inner),
{
    let b = inner * m;
    assert(b >= 1) by (nonlinear_arith)
        requires
            inner >= 1,
            m >= 1,
            b == inner * m,
    ;
    let q = o / b;
    assert(0 <= q < outer) by (nonlinear_arith)
        requires
            0 <= o < outer * b,
            b >= 1,
            q == o / b,
    ;
    let r = o % inner;
    let c = dim * inner;
    assert(0 <= g * inner && g * inner + r < c) by (nonlinear_arith)
        requires
            0 <= g < dim,
            0 <= r < inner,
            c == dim * inner,
    ;
    let t = g * inner + r;
    assert(0 <= q * c && q * c + t < outer * c) by (nonlinear_arith)
        requires
            0 <= q < outer,
            0 <= t < c,
    ;
}

/// The product of the dimensions from `a` up to `b`, where all are positive.
fn span_count(shape: &[i64], a: usize, b: usize) -> (r: usize)
    requires
        a <= b <= shape@.len(),
        forall|k: int| a <= k < b ==> #[trigger] shape@[k] > 0,
        product(shape@.subrange(a as int, b as int)) <= usize::MAX,
    ensures
        r == product(shape@.subrange(a as int, b as int)),
        r >= 1,
{
    let mut n: usize = 1;
    let mut i: usize = a;
    let ghost s = shape@.subrange(a as int, b as int);
    assert(s.take(0) =~= Seq::empty());
    while i < b
        invariant
            a <= i <= b <= shape@.len(),
            s == shape@.subrange(a as int, b as int),
            forall|k: int| 0 <= k < s.len() ==> #[trigger] s[k] > 0,
            product(s) <= usize::MAX,
            n == product(s.take(i - a)),
            n >= 1,
        decreases b - i,
    {
        proof {
            assert(s.take(i - a + 1).drop_last() =~= s.take(i - a));
            lemma_split_product(s, i - a + 1);
            lemma_suffix_positive(s, i - a + 1);
            let p = product(s.take(i - a + 1));
            let q = suffix(s, i - a + 1);
            let x = n as int;
            let y = shape@[i as int] as int;
            assert(y == s[i - a]);
            assert(p == x * y);
            assert(1 <= p && y <= p) by (nonlinear_arith)
                requires
                    p == x * y,
                    x >= 1,
                    y >= 1,
            ;
            assert(p <= p * q) by (nonlinear_arith)
                requires
                    p >= 1,
                    q >= 1,
            ;
        }
        n = n * (shape[i] as usize);
        i += 1;
    }
    assert(s.take(b - a) =~= s);
    n
}

/// Dimensions before and behind an axis, in a shape whose other dimensions are positive.
proof fn lemma_beside(shape: Seq<i64>, axis: int)
    requires
        0 <= axis < shape.len(),
        positive_beside(shape, axis),
        count_of(shape) is Some,
    ensures
        product(shape.take(axis)) >= 1,
        suffix(shape, axis + 1) >= 1,
        suffix(shape, axis + 1) == product(shape.subrange(axis + 1, shape.len() as int)),
        product(shape) == product(shape.take(axis)) * (shape[axis] * suffix(shape, axis + 1)),
        shape[axis] > 0 ==> suffix(shape, axis + 1) <= product(shape) && product(shape.take(axis))
            <= product(shape) && shape[axis] * suffix(shape, axis + 1) <= product(shape),
{
    lemma_count(shape);
    lemma_split_product(shape, axis);
    let front = shape.take(axis);
    lemma_suffix_positive(front, 0);
    lemma_whole(front);
    let back = shape.subrange(axis + 1, shape.len() as int);
    lemma_suffix_positive(back, 0);
    lemma_whole(back);
    lemma_suffix_tail(shape, axis + 1, axis + 1);
    let a = product(front);
    let c = shape[axis] as int;
    let b = suffix(shape, axis + 1);
    if c > 0 {
        assert(b <= c * b && c * b >= 1) by (nonlinear_arith)
            requires
                c >= 1,
                b >= 1,
        ;
        let cb = c * b;
        assert(cb <= a * cb && a <= a * cb) by (nonlinear_arith)
            requires
                a >= 1,
                cb >= 1,
        ;
    }
}

proof fn lemma_suffix_tail(shape: Seq<i64>, from: int, d: int)
    requires
        0 <= from <= d <= shape.len(),
    ensures
        suffix(shape, d) == suffix(shape.subrange(from, shape.len() as int), d - from),
    decreases shape.len() - d,
{
    if d < shape.len() {
        lemma_suffix_tail(shape, from, d + 1);
    }
}

/// Whether the gathered tensor has no more elements than can be addressed.
pub open spec fn gather_sound(t: TensorView, indices: TensorView, axis: int) -> bool {
    let a = front_axis(axis, t.shape.len() as int);
    fault(t) is None && 0 <= a < t.shape.len() && ints_of(indices) is Ok ==> {
        let idx = ints_of(indices)->Ok_0;
        idx.len() > 0 && positive_beside(t.shape, a) ==> gather_count(
            t.shape,
            idx.len() as int,
            a,
        ) <= usize::MAX
    }
}

pub(crate) fn is_positive_beside(shape: &[i64], axis: usize) -> (r: bool)
    ensures
        r == positive_beside(shape@, axis as int),
{
    let n: usize = shape.len();
    let mut k: usize = 0;
    while k < n
        invariant
            k <= n,
            n == shape@.len(),
            forall|j: int| 0 <= j < k && j != axis ==> #[trigger] shape@[j] > 0,
        decreases n - k,
    {
        if k != axis && shape[k] <= 0 {
            assert(shape@[k as int] <= 0);
            return false;
        }
        k += 1;
    }
    true
}

/// An empty dimension beside the axis leaves nothing to gather.
pub proof fn lemma_empty_beside(shape: Seq<i64>, m: int, axis: int)
    requires
        0 <= axis < shape.len(),
        !positive_beside(shape, axis),
        count_of(shape) is Some,
    ensures
        gather_count(shape, m, axis) == 0,
{
    lemma_count(shape);
    let k = choose|k: int| 0 <= k < shape.len() && k != axis && !(#[trigger] shape[k] > 0);
    let front = shape.take(axis);
    lemma_suffix_sign(front, 0);
    lemma_whole(front);
    lemma_suffix_sign(shape, axis + 1);
    if k < axis {
        assert(front[k] == 0);
    }
    let a = product(front);
    let b = suffix(shape, axis + 1);
    assert(a == 0 || b == 0);
    assert(a * (b * m) == 0) by (nonlinear_arith)
        requires
            a == 0 || b == 0,
    ;
}

/// Whether some index names no element.
fn has_bad_index(idx: &Vec<i64>, dim: i64) -> (r: bool)
    requires
        dim >= 0,
    ensures
        r == bad_index(idx@, dim as int),
{
    let m: usize = idx.len();
    let mut i: usize = 0;
    while i < m
        invariant
            i <= m,
            m == idx@.len(),
            dim >= 0,
            forall|k: int| 0 <= k < i ==> index_ok(#[trigger] idx@[k] as int, dim as int),
        decreases m - i,
    {
        let g: i64 = idx[i];
        let ok: bool = if g < 0 {
            g + dim >= 0
        } else {
            g < dim
        };
        if !ok {
            assert(!index_ok(idx@[i as int] as int, dim as int));
            return true;
        }
        i += 1;
    }
    false
}

/// Takes the slices along `axis` that the indices name; negative indices count from the end.
pub fn gather(data: &HostTensor, indices: &HostTensor, axis: i64) -> (r: Result<HostTensor>)
    requires
        data.shape@.len() <= i64::MAX,
        gather_sound(data@, indices@, axis as int),
    ensures
        gives(r, gather_of(data@, indices@, axis as int)),
{
    match data.validate() {
        Ok(_) => {},
        Err(e) => {
            return Err(e);
        },
    }
    match indices.validate() {
        Ok(_) => {},
        Err(e) => {
            return Err(e);
        },
    }
    let es: usize = elem_size(data.dtype);
    if es == 0 {
        return Err(invalid_tensor("type without size"));
    }
    let rank: i64 = data.shape.len() as i64;
    let a: i64 = if axis < 0 {
        axis + rank
    } else {
        axis
    };
    if a < 0 || a >= rank {
        return Err(invalid_tensor("axis out of range"));
    }
    let a: usize = a as usize;
    let idx = match indices.to_i64() {
        Ok(v) => v,
        Err(e) => {
            return Err(e);
        },
    };
    let dim: i64 = data.shape[a];
    proof {
        lemma_sound_len(data@);
        lemma_count(data.shape@);
    }
    let m: usize = idx.len();
    let mut shape: Vec<i64> = Vec::new();
    shape.extend_from_slice(dims_range(data.shape.as_slice(), 0, a).as_slice());
    shape.extend_from_slice(indices.shape.as_slice());
    shape.extend_from_slice(dims_range(data.shape.as_slice(), a + 1, data.shape.len()).as_slice());
    assert(shape@ =~= gathered_shape(data.shape@, indices.shape@, a as int));
    let mut bytes: Vec<u8> = Vec::new();
    if m > 0 && !is_positive_beside(data.shape.as_slice(), a) {
        if has_bad_index(&idx, dim) {
            return Err(invalid_tensor("index out of range"));
        }
        proof {
            lemma_empty_beside(data.shape@, m as int, a as int);
        }
    } else if m > 0 {
        let mut order: Vec<usize> = Vec::new();
        let mut i: usize = 0;
        while i < m
            invariant
                i <= m,
                m == idx@.len(),
                dim >= 0,
                dim == data.shape@[a as int],
                a < data.shape@.len(),
                fault(data@) is None,
                fault(indices@) is None,
                es == size_of_code(data.dtype),
                es > 0,
                a == front_axis(axis as int, data.shape@.len() as int),
                ints_of(indices@) == Ok::<Seq<i64>, Kind>(idx@),
                count_of(data.shape@) is Some,
                product(data.shape@) <= usize::MAX,
                positive_beside(data.shape@, a as int),
                order@.len() == i,
                forall|k: int| 0 <= k < i ==> index_ok(#[trigger] idx@[k] as int, dim as int),
                forall|k: int|
                    0 <= k < i ==> #[trigger] order@[k] == normal_index(idx@[k] as int, dim as int),
            decreases m - i,
        {
            match resolve_index(idx[i], dim) {
                Some(g) => {
                    order.push(g);
                },
                None => {
                    proof {
                        if index_ok(idx@[i as int] as int, dim as int) {
                            lemma_beside(data.shape@, a as int);
                            let b = suffix(data.shape@, a + 1);
                            assert(dim <= dim * b) by (nonlinear_arith)
                                requires
                                    dim > 0,
                                    b >= 1,
                            ;
                        }
                        assert(bad_index(idx@, dim as int));
                    }
                    return Err(invalid_tensor("index out of range"));
                },
            }
            i += 1;
        }
        proof {
            assert(order@[0] == normal_index(idx@[0] as int, dim as int));
            lemma_beside(data.shape@, a as int);
            assert(data.shape@.take(a as int) =~= data.shape@.subrange(0, a as int));
            assert forall|i: int| 0 <= i < idx@.len() implies index_ok(
                #[trigger] idx@[i] as int,
                dim as int,
            ) by {
                assert(order@[i] == normal_index(idx@[i] as int, dim as int));
            }
        }
        let inner: usize = span_count(data.shape.as_slice(), a + 1, data.shape.len());
        let outer: usize = span_count(data.shape.as_slice(), 0, a);
        let ghost total = outer * (inner * m);
        proof {
            let ib = inner * m;
            assert(inner <= ib && 1 <= ib) by (nonlinear_arith)
                requires
                    ib == inner * m,
                    m >= 1,
                    inner >= 1,
            ;
            assert(ib <= outer * ib) by (nonlinear_arith)
                requires
                    outer >= 1,
                    ib >= 1,
            ;
            assert(dim <= dim * inner) by (nonlinear_arith)
                requires
                    dim >= 1,
                    inner >= 1,
            ;
        }
        let block: usize = inner * m;
        let n: usize = outer * block;
        let row: usize = (dim as usize) * inner;
        let ghost src = |o: int| gather_source(idx@, dim as int, inner as int, o);
        let mut o: usize = 0;
        while o < n
            invariant
                o <= n,
                n == outer * (inner * m),
                block == inner * m,
                block >= 1,
                row == dim * inner,
                dim > 0,
                m == idx@.len(),
                m >= 1,
                inner >= 1,
                order@.len() == m,
                product(data.shape@) == outer * (dim * inner),
                product(data.shape@) <= usize::MAX,
                data.data@.len() == product(data.shape@) * es,
                forall|k: int|
                    0 <= k < m ==> index_ok(idx@[k] as int, dim as int) && #[trigger] order@[k]
                        == normal_index(idx@[k] as int, dim as int),
                src == (|o: int| gather_source(idx@, dim as int, inner as int, o)),
                bytes@ == picked(data.data@, es as int, o as int, src),
            decreases n - o,
        {
            let i: usize = (o / inner) % m;
            let g: usize = order[i];
            proof {
                lemma_gather_bound(
                    outer as int,
                    dim as int,
                    inner as int,
                    m as int,
                    o as int,
                    g as int,
                );
                assert(order@[i as int] == normal_index(idx@[i as int] as int, dim as int));
            }
            let s: usize = (o / block) * row + g * inner + o % inner;
            proof {
                assert(src(o as int) == s);
                lemma_element_within(s as int, product(data.shape@), es as int);
            }
            push_element(&mut bytes, data.data.as_slice(), s, es);
            o += 1;
        }
    }
    Ok(HostTensor { dtype: data.dtype, shape, data: bytes })
}

/// The dimensions from `a` up to `b`.
pub fn dims_range(s: &[i64], a: usize, b: usize) -> (r: Vec<i64>)
    requires
        a <= b <= s@.len(),
    ensures
        r@ == s@.subrange(a as int, b as int),
{
    let mut r: Vec<i64> = Vec::new();
    let mut i: usize = a;
    while i < b
        invariant
            a <= i <= b <= s@.len(),
            r@ == s@.subrange(a as int, i as int),
        decreases b - i,
    {
        r.push(s[i]);
        i += 1;
        assert(r@ =~= s@.subrange(a as int, i as int));
    }
    r
}

// --- gathering element by element -------------------------------------------------------

/// The place of the element that stands at place `o`: its own coordinates, but for the one
/// along the axis, which the index gives.
pub open spec fn element_source(
    shape: Seq<i64>,
    out: Seq<i64>,
    idx: Seq<i64>,
    axis: int,
    o: int,
) -> int {
    place(shape, element_coords(shape, out, idx, axis, o))
}

pub open spec fn element_coords(
    shape: Seq<i64>,
    out: Seq<i64>,
    idx: Seq<i64>,
    axis: int,
    o: int,
) -> spec_fn(int) -> int {
    |d: int|
        if d == axis {
            normal_index(idx[o] as int, shape[axis] as int)
        } else {
            coord(out, o, d)
        }
}

/// One element of the tensor for each index.
pub open spec fn gather_elements_of(
    t: TensorView,
    indices: TensorView,
    axis: int,
) -> Outcome<TensorView> {
    let a = front_axis(axis, t.shape.len() as int);
    let es = size_of_code(t.dtype) as int;
    if let Some(k) = fault(t) {
        Err(k)
    } else if let Some(k) = fault(indices) {
        Err(k)
    } else if es == 0 || indices.shape.len() != t.shape.len() || !(0 <= a < t.shape.len()) {
        Err(Kind::Tensor)
    } else {
        match ints_of(indices) {
            Err(k) => Err(k),
            Ok(idx) => if bad_index(idx, t.shape[a] as int) {
                Err(Kind::Tensor)
            } else {
                Ok(
                    TensorView {
                        dtype: t.dtype,
                        shape: indices.shape,
                        data: picked(
                            t.data,
                            es,
                            idx.len() as int,
                            |o: int| element_source(t.shape, indices.shape, idx, a, o),
                        ),
                    },
                )
            },
        }
    }
}

/// Whether the index tensor is no larger than the data beside the axis.
pub open spec fn indices_within(shape: Seq<i64>, out: Seq<i64>, axis: int) -> bool {
    forall|d: int| 0 <= d < shape.len() && d != axis ==> #[trigger] out[d] <= shape[d]
}

/// Takes one element for each index: its coordinates are those of the index, but for the one
/// along `axis`, which the index gives.
pub fn gather_elements(data: &HostTensor, indices: &HostTensor, axis: i64) -> (r: Result<HostTensor>)
    requires
        data.shape@.len() <= i64::MAX,
        indices.shape@.len() == data.shape@.len() && elements(indices@) > 0 ==> indices_within(
            data.shape@,
            indices.shape@,
            front_axis(axis as int, data.shape@.len() as int),
        ),
    ensures
        gives(r, gather_elements_of(data@, indices@, axis as int)),
{
    match data.validate() {
        Ok(_) => {},
        Err(e) => {
            return Err(e);
        },
    }
    match indices.validate() {
        Ok(_) => {},
        Err(e) => {
            return Err(e);
        },
    }
    let es: usize = elem_size(data.dtype);
    if es == 0 {
        return Err(invalid_tensor("type without size"));
    }
    let rank: i64 = data.shape.len() as i64;
    if indices.shape.len() != data.shape.len() {
        return Err(invalid_tensor("indices of another rank"));
    }
    let a: i64 = if axis < 0 {
        axis + rank
    } else {
        axis
    };
    if a < 0 || a >= rank {
        return Err(invalid_tensor("axis out of range"));
    }
    let a: usize = a as usize;
    let idx = match indices.to_i64() {
        Ok(v) => v,
        Err(e) => {
            return Err(e);
        },
    };
    let dim: i64 = data.shape[a];
    proof {
        lemma_sound_len(data@);
        lemma_count(data.shape@);
        lemma_sound_len(indices@);
        lemma_count(indices.shape@);
    }
    let n: usize = idx.len();
    let ghost src = |o: int|
        element_source(data.shape@, indices.shape@, idx@, a as int, o);
    let mut bytes: Vec<u8> = Vec::new();
    if n > 0 {
        proof {
            lemma_nonempty(indices.shape@);
        }
        let out_strides = strides_of(indices.shape.as_slice());
        let first_bad = first_bad_index(&idx, dim);
        match first_bad {
            Some(_) => {
                return Err(invalid_tensor("index out of range"));
            },
            None => {},
        }
        proof {
            assert(index_ok(idx@[0] as int, dim as int));
            assert forall|k: int| 0 <= k < data.shape@.len() implies #[trigger] data.shape@[k]
                > 0 by {
                if k != a {
                    assert(indices.shape@[k] <= data.shape@[k]);
                }
            }
            lemma_whole(data.shape@);
        }
        let strides = strides_of(data.shape.as_slice());
        let mut o: usize = 0;
        while o < n
            invariant
                o <= n,
                n == idx@.len(),
                a < data.shape@.len(),
                dim == data.shape@[a as int],
                positive(data.shape@),
                positive(indices.shape@),
                indices.shape@.len() == data.shape@.len(),
                indices_within(data.shape@, indices.shape@, a as int),
                product(data.shape@) <= usize::MAX,
                suffix(data.shape@, 0) == product(data.shape@),
                data.data@.len() == product(data.shape@) * es,
                !bad_index(idx@, dim as int),
                out_strides@.len() == data.shape@.len(),
                strides@.len() == data.shape@.len(),
                forall|k: int|
                    0 <= k < data.shape@.len() ==> #[trigger] out_strides@[k] == suffix(
                        indices.shape@,
                        k + 1,
                    ),
                forall|k: int|
                    0 <= k < data.shape@.len() ==> #[trigger] strides@[k] == suffix(
                        data.shape@,
                        k + 1,
                    ),
                src == (|o: int|
                    element_source(data.shape@, indices.shape@, idx@, a as int, o)),
                bytes@ == picked(data.data@, es as int, o as int, src),
            decreases n - o,
        {
            let s: usize = element_place(
                data.shape.as_slice(),
                indices.shape.as_slice(),
                &strides,
                &out_strides,
                &idx,
                a,
                o,
            );
            proof {
                lemma_element_within(s as int, product(data.shape@), es as int);
                assert(src(o as int) == s);
            }
            push_element(&mut bytes, data.data.as_slice(), s, es);
            o += 1;
        }
    }
    Ok(HostTensor { dtype: data.dtype, shape: copy_dims(indices.shape.as_slice()), data: bytes })
}

/// The first index that names no element of a dimension of `dim`.
fn first_bad_index(idx: &Vec<i64>, dim: i64) -> (r: Option<usize>)
    requires
        dim >= 0,
    ensures
        r is Some == bad_index(idx@, dim as int),
{
    let n: usize = idx.len();
    let mut i: usize = 0;
    while i < n
        invariant
            i <= n,
            n == idx@.len(),
            dim >= 0,
            forall|k: int| 0 <= k < i ==> index_ok(#[trigger] idx@[k] as int, dim as int),
        decreases n - i,
    {
        let g: i64 = if idx[i] < 0 {
            idx[i] + dim
        } else {
            idx[i]
        };
        if g < 0 || g >= dim {
            assert(!index_ok(idx@[i as int] as int, dim as int));
            return Some(i);
        }
        i += 1;
    }
    None
}

fn element_place(
    shape: &[i64],
    out: &[i64],
    strides: &Vec<usize>,
    out_strides: &Vec<usize>,
    idx: &Vec<i64>,
    a: usize,
    o: usize,
) -> (r: usize)
    requires
        positive(shape@),
        positive(out@),
        out@.len() == shape@.len(),
        a < shape@.len(),
        o < idx@.len(),
        indices_within(shape@, out@, a as int),
        !bad_index(idx@, shape@[a as int] as int),
        suffix(shape@, 0) <= usize::MAX,
        out_strides@.len() == shape@.len(),
        strides@.len() == shape@.len(),
        forall|k: int| 0 <= k < out@.len() ==> #[trigger] out_strides@[k] == suffix(out@, k + 1),
        forall|k: int| 0 <= k < out@.len() ==> #[trigger] strides@[k] == suffix(shape@, k + 1),
    ensures
        r == element_source(shape@, out@, idx@, a as int, o as int),
        r < suffix(shape@, 0),
{
    let n: usize = out.len();
    let ghost x = element_coords(shape@, out@, idx@, a as int, o as int);
    let ghost w = |k: int| suffix(shape@, k + 1);
    let mut acc: usize = 0;
    let mut d: usize = 0;
    proof {
        assert(index_ok(idx@[o as int] as int, shape@[a as int] as int));
        assert forall|k: int| 0 <= k < shape@.len() implies 0 <= #[trigger] x(k) < shape@[k] by {
            lemma_coord_bound(out@, o as int, k);
            if k != a {
                assert(out@[k] <= shape@[k]);
            }
        }
        lemma_suffix_positive(shape@, 0);
        lemma_place_bound(shape@, x, n as int);
    }
    while d < n
        invariant
            n == out@.len(),
            n == shape@.len(),
            a < n,
            o < idx@.len(),
            d <= n,
            positive(out@),
            positive(shape@),
            suffix(shape@, 0) <= usize::MAX,
            out_strides@.len() == n,
            strides@.len() == n,
            x == element_coords(shape@, out@, idx@, a as int, o as int),
            w == (|k: int| suffix(shape@, k + 1)),
            forall|k: int| 0 <= k < n ==> 0 <= #[trigger] x(k) < shape@[k],
            forall|k: int|
                0 <= k < out@.len() ==> #[trigger] out_strides@[k] == suffix(out@, k + 1),
            forall|k: int| 0 <= k < out@.len() ==> #[trigger] strides@[k] == suffix(shape@, k + 1),
            acc == weighted(x, w, d as int),
        decreases n - d,
    {
        proof {
            lemma_suffix_positive(out@, d + 1);
            lemma_next_place(shape@, x, d as int);
            lemma_dim_bound(shape@, d as int);
            assert(0 <= x(d as int) < shape@[d as int]);
        }
        let c: usize = if d == a {
            let g: i64 = if idx[o] < 0 {
                idx[o] + shape[a]
            } else {
                idx[o]
            };
            g as usize
        } else {
            coord_along(o, out_strides[d], out[d])
        };
        assert(c == x(d as int));
        acc = acc + c * strides[d];
        d += 1;
    }
    acc
}

// --- dequantisation ---------------------------------------------------------------------

/// `(x - zero point) * scale` for one scale and one zero point.
pub open spec fn dequantize_of(
    x: TensorView,
    scale: TensorView,
    zero: Option<TensorView>,
) -> Outcome<TensorView> {
    if let Some(k) = fault(x) {
        Err(k)
    } else {
        match floats_of(scale) {
            Err(k) => Err(k),
            Ok(s) => if s.len() != 1 {
                Err(Kind::Tensor)
            } else {
                match zero_point_of(x, zero) {
                    Err(k) => Err(k),
                    Ok(z) => match ints_of(x) {
                        Err(k) => Err(k),
                        Ok(v) => Ok(
                            float_tensor(
                                x.shape,
                                v.map_values(|e: i64| mul_spec(from_i64_spec(e - z), s[0])),
                            ),
                        ),
                    },
                }
            },
        }
    }
}

/// The zero point: zero where none is given, else the only element of a tensor of the same
/// type.
pub open spec fn zero_point_of(x: TensorView, zero: Option<TensorView>) -> Outcome<int> {
    match zero {
        None => Ok(0),
        Some(t) => if let Some(k) = fault(t) {
            Err(k)
        } else if t.dtype != x.dtype {
            Err(Kind::Tensor)
        } else {
            match ints_of(t) {
                Err(k) => Err(k),
                Ok(v) => if v.len() == 1 {
                    Ok(v[0] as int)
                } else {
                    Err(Kind::Tensor)
                },
            }
        },
    }
}

/// Whether no difference to the zero point leaves the range of 64-bit integers.
pub open spec fn dequantize_fits(x: TensorView, zero: Option<TensorView>) -> bool {
    match (ints_of(x), zero_point_of(x, zero)) {
        (Ok(v), Ok(z)) => forall|i: int| 0 <= i < v.len() ==> in_range(#[trigger] v[i] - z),
        _ => true,
    }
}

pub open spec fn optional_tensor(t: Option<&HostTensor>) -> Option<TensorView> {
    match t {
        Some(h) => Some(h@),
        None => None,
    }
}

fn read_zero_point(x: &HostTensor, zero_point: Option<&HostTensor>) -> (r: Result<i64>)
    ensures
        match r {
            Ok(z) => zero_point_of(x@, optional_tensor(zero_point)) == Ok::<int, Kind>(z as int),
            Err(e) => zero_point_of(x@, optional_tensor(zero_point)) == Err::<int, Kind>(e.kind()),
        },
{
    match zero_point {
        None => Ok(0),
        Some(t) => {
            match t.validate() {
                Ok(_) => {},
                Err(e) => {
                    return Err(e);
                },
            }
            if t.dtype != x.dtype {
                return Err(invalid_tensor("zero point of another type"));
            }
            match t.to_i64() {
                Err(e) => Err(e),
                Ok(v) => if v.len() == 1 {
                    Ok(v[0])
                } else {
                    Err(invalid_tensor("more than one zero point"))
                },
            }
        },
    }
}

/// Turns quantised numbers back, with one scale and one zero point for the whole tensor. The
/// difference is formed in integers.
pub fn dequantize_linear(
    x: &HostTensor,
    scale: &HostTensor,
    zero_point: Option<&HostTensor>,
) -> (r: Result<HostTensor>)
    requires
        dequantize_fits(x@, optional_tensor(zero_point)),
    ensures
        gives(r, dequantize_of(x@, scale@, optional_tensor(zero_point))),
{
    match x.validate() {
        Ok(_) => {},
        Err(e) => {
            return Err(e);
        },
    }
    let scales = match scale.to_f32() {
        Ok(v) => v,
        Err(e) => {
            return Err(e);
        },
    };
    if scales.len() != 1 {
        return Err(invalid_tensor("more than one scale"));
    }
    let s: u32 = scales[0];
    let zero: i64 = match read_zero_point(x, zero_point) {
        Ok(z) => z,
        Err(e) => {
            return Err(e);
        },
    };
    let v = match x.to_i64() {
        Ok(v) => v,
        Err(e) => {
            return Err(e);
        },
    };
    let n: usize = v.len();
    let mut out: Vec<u32> = Vec::new();
    let mut i: usize = 0;
    while i < n
        invariant
            i <= n,
            n == v@.len(),
            forall|i: int| 0 <= i < v@.len() ==> in_range(#[trigger] v@[i] - zero),
            out@ == v@.take(i as int).map_values(
                |e: i64| mul_spec(from_i64_spec(e - zero as int), s),
            ),
        decreases n - i,
    {
        assert(in_range(v@[i as int] - zero));
        out.push(f32_mul(f32_from_i64(v[i] - zero), s));
        i += 1;
        assert(out@ =~= v@.take(i as int).map_values(
            |e: i64| mul_spec(from_i64_spec(e - zero as int), s),
        ));
    }
    proof {
        assert(v@.take(n as int) =~= v@);
        assert(out@ =~= v@.map_values(|e: i64| mul_spec(from_i64_spec(e - zero as int), scales@[0])));
    }
    Ok(HostTensor::from_f32(copy_dims(x.shape.as_slice()), out.as_slice()))
}

/// The bytes that a tensor of this type and shape takes, or zero where that cannot be said.
pub fn expected_bytes(dtype: i32, shape: &[i64]) -> (r: usize)
    ensures
        r == match count_of(shape@) {
            Some(n) => match storage_of(dtype, n) {
                Some(s) => s,
                None => 0,
            },
            None => 0,
        },
{
    match element_count(shape) {
        Ok(n) => match storage_len(dtype, n) {
            Some(s) => s,
            None => 0,
        },
        Err(_) => 0,
    }
}

} // verus!
