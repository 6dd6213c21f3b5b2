//! Operations that repeat, extend or choose elements: filling, expanding, tiling, padding.

use crate::bytes::{element, picked, push_element, push_zeros, strung, zeros};
use crate::error::{invalid_tensor, Kind, Result};
use crate::graph::{elem_size, size_of_code, TensorView};
use crate::host_ops::{fault, gives, lemma_sound_len, HostTensor, Outcome};
use crate::shape::{
    broadcast, coord, count_of, element_count, fits_into, joins, joint_shape, joint_stride,
    lemma_coord_bound, lemma_count, lemma_joint_fits, lemma_nonempty, lemma_place_bound,
    lemma_source_bound, lemma_suffix_bound, lemma_suffix_positive, lemma_unit_suffix,
    lemma_unit_suffix_fits, lemma_weighted_grows, lemma_whole, place, positive, product, source,
    strides_of, suffix, unit_suffix, weighted,
};
use vstd::prelude::*;

verus! {

// --- strides ----------------------------------------------------------------------------

/// The product of the dimensions from `d` on, negative ones counted as zero.
pub open spec fn clipped_suffix(shape: Seq<i64>, d: int) -> int
    decreases shape.len() - d,
{
    if d >= shape.len() {
        1
    } else {
        (if shape[d] > 0 {
            shape[d] as int
        } else {
            0
        }) * clipped_suffix(shape, d + 1)
    }
}

/// Whether all trailing products can be held.
pub open spec fn strides_fit(shape: Seq<i64>) -> bool {
    forall|d: int| 0 <= d <= shape.len() ==> #[trigger] clipped_suffix(shape, d) <= i64::MAX
}

pub proof fn lemma_clipped(shape: Seq<i64>, d: int)
    requires
        0 <= d,
    ensures
        clipped_suffix(shape, d) >= 0,
        positive(shape) ==> clipped_suffix(shape, d) == suffix(shape, d),
    decreases shape.len() - d,
{
    if d < shape.len() {
        lemma_clipped(shape, d + 1);
        let a = if shape[d] > 0 {
            shape[d] as int
        } else {
            0
        };
        let b = clipped_suffix(shape, d + 1);
        assert(a * b >= 0) by (nonlinear_arith)
            requires
                a >= 0,
                b >= 0,
        ;
    }
}

/// Whether all trailing products can be held.
pub fn strides_held(shape: &[i64]) -> (r: bool)
    ensures
        r == strides_fit(shape@),
{
    let n: usize = shape.len();
    let mut acc: i64 = 1;
    let mut d: usize = n;
    while d > 0
        invariant
            n == shape@.len(),
            d <= n,
            acc == clipped_suffix(shape@, d as int),
            forall|k: int| d <= k <= n ==> #[trigger] clipped_suffix(shape@, k) <= i64::MAX,
        decreases d,
    {
        d -= 1;
        let dim: i64 = if shape[d] > 0 {
            shape[d]
        } else {
            0
        };
        proof {
            lemma_clipped(shape@, d as int);
            let a = dim as int;
            let b = acc as int;
            assert(clipped_suffix(shape@, d as int) == a * b);
            assert(b * a == a * b) by (nonlinear_arith);
        }
        match acc.checked_mul(dim) {
            Some(v) => {
                acc = v;
            },
            None => {
                assert(clipped_suffix(shape@, d as int) > i64::MAX);
                return false;
            },
        }
    }
    true
}

/// Row-major strides of a shape, in elements.
pub fn row_major_strides(shape: &[i64]) -> (r: Vec<i64>)
    requires
        strides_fit(shape@),
    ensures
        r@.len() == shape@.len(),
        forall|d: int| 0 <= d < r@.len() ==> #[trigger] r@[d] == clipped_suffix(shape@, d + 1),
{
    let n: usize = shape.len();
    let mut s: Vec<i64> = vec![1i64; n];
    let mut acc: i64 = 1;
    let mut d: usize = n;
    while d > 0
        invariant
            n == shape@.len(),
            n == s@.len(),
            d <= n,
            strides_fit(shape@),
            acc == clipped_suffix(shape@, d as int),
            forall|k: int| d <= k < n ==> #[trigger] s@[k] == clipped_suffix(shape@, k + 1),
        decreases d,
    {
        d -= 1;
        s.set(d, acc);
        let dim: i64 = if shape[d] > 0 {
            shape[d]
        } else {
            0
        };
        proof {
            lemma_clipped(shape@, d as int);
            let a = dim as int;
            let b = acc as int;
            assert(clipped_suffix(shape@, d as int) == a * b);
            assert(b * a == a * b) by (nonlinear_arith);
        }
        acc = acc * dim;
    }
    s
}

/// The stride of `in_shape` along dimension `k` of `out_shape`, aligned at the right: nothing
/// where the dimension is absent, has one element or differs.
pub open spec fn aligned_stride(in_shape: Seq<i64>, out_shape: Seq<i64>, k: int) -> int {
    let d = k - (out_shape.len() - in_shape.len());
    if d >= 0 && in_shape[d] == out_shape[k] && in_shape[d] != 1 {
        clipped_suffix(in_shape, d + 1)
    } else {
        0
    }
}

/// Strides of `in_shape` along the dimensions of `out_shape`, in elements.
pub fn bcast_strides(in_shape: &[i64], out_shape: &[i64]) -> (r: Vec<i64>)
    requires
        strides_fit(in_shape@),
    ensures
        r@.len() == out_shape@.len(),
        forall|k: int|
            0 <= k < r@.len() ==> #[trigger] r@[k] == aligned_stride(in_shape@, out_shape@, k),
{
    let n: usize = out_shape.len();
    let m: usize = in_shape.len();
    let s = row_major_strides(in_shape);
    let mut out: Vec<i64> = vec![0i64; n];
    let mut off: usize = 0;
    while off < n
        invariant
            n == out_shape@.len(),
            m == in_shape@.len(),
            n == out@.len(),
            s@.len() == m,
            off <= n,
            forall|d: int| 0 <= d < m ==> #[trigger] s@[d] == clipped_suffix(in_shape@, d + 1),
            forall|k: int|
                n - off <= k < n ==> #[trigger] out@[k] == aligned_stride(
                    in_shape@,
                    out_shape@,
                    k,
                ),
            forall|k: int| 0 <= k < n - off ==> #[trigger] out@[k] == 0,
        decreases n - off,
    {
        if off < m {
            let d: usize = m - 1 - off;
            let k: usize = n - 1 - off;
            if in_shape[d] == out_shape[k] && in_shape[d] != 1 {
                out.set(k, s[d]);
            }
        }
        off += 1;
    }
    out
}

/// Along a shape that it broadcasts to, the aligned strides lead to the operand's elements.
proof fn lemma_aligned(shape: Seq<i64>, out: Seq<i64>, k: int)
    requires
        fits_into(shape, out),
        positive(shape),
        0 <= k < out.len(),
    ensures
        aligned_stride(shape, out, k) == joint_stride(shape, out.len() as int, k),
        aligned_stride(shape, out, k) >= 0,
{
    let d = k - (out.len() - shape.len());
    if d >= 0 {
        lemma_clipped(shape, d + 1);
        lemma_unit_suffix(shape, d + 1);
        assert(shape[d] == 1 || shape[d] == out[d + (out.len() - shape.len())]);
    }
}

/// The place in a tensor of `shape` of the element at place `o` of the broadcast result.
pub(crate) fn joint_place(
    out: &[i64],
    out_strides: &Vec<usize>,
    strides: &Vec<i64>,
    o: usize,
    Ghost(shape): Ghost<Seq<i64>>,
) -> (r: usize)
    requires
        positive(out@),
        positive(shape),
        fits_into(shape, out@),
        product(shape) <= usize::MAX,
        out_strides@.len() == out@.len(),
        strides@.len() == out@.len(),
        forall|k: int| 0 <= k < out@.len() ==> #[trigger] out_strides@[k] == suffix(out@, k + 1),
        forall|k: int|
            0 <= k < out@.len() ==> #[trigger] strides@[k] == aligned_stride(shape, out@, k),
    ensures
        r == source(shape, out@, o as int),
        r < product(shape),
{
    let n: usize = out.len();
    let ghost f = |k: int| coord(out@, o as int, k);
    let ghost w = |k: int| joint_stride(shape, out@.len() as int, k);
    let mut acc: usize = 0;
    let mut d: usize = 0;
    proof {
        lemma_source_bound(shape, out@, o as int, n as int);
        lemma_whole(shape);
        assert forall|j: int| 0 <= j < n implies 0 <= #[trigger] f(j) by {
            lemma_coord_bound(out@, o as int, j);
        }
        assert forall|j: int| 0 <= j < n implies 0 <= #[trigger] w(j) by {
            lemma_aligned(shape, out@, j);
        }
    }
    while d < n
        invariant
            n == out@.len(),
            d <= n,
            positive(out@),
            positive(shape),
            fits_into(shape, out@),
            out_strides@.len() == n,
            strides@.len() == n,
            f == (|k: int| coord(out@, o as int, k)),
            w == (|k: int| joint_stride(shape, out@.len() as int, k)),
            forall|j: int| 0 <= j < n ==> 0 <= #[trigger] f(j),
            forall|j: int| 0 <= j < n ==> 0 <= #[trigger] w(j),
            forall|k: int|
                0 <= k < out@.len() ==> #[trigger] out_strides@[k] == suffix(out@, k + 1),
            forall|k: int|
                0 <= k < out@.len() ==> #[trigger] strides@[k] == aligned_stride(shape, out@, k),
            acc == weighted(f, w, d as int),
            weighted(f, w, n as int) < product(shape),
            product(shape) <= usize::MAX,
        decreases n - d,
    {
        proof {
            lemma_suffix_positive(out@, d + 1);
            lemma_aligned(shape, out@, d as int);
            lemma_coord_bound(out@, o as int, d as int);
            lemma_weighted_grows(f, w, d + 1, n as int);
            lemma_weighted_grows(f, w, d as int, n as int);
            assert(weighted(f, w, d + 1) == weighted(f, w, d as int) + f(d as int) * w(d as int));
            let c = f(d as int);
            let s = w(d as int);
            assert(c >= 1 ==> s <= c * s) by (nonlinear_arith)
                requires
                    s >= 0,
            ;
            assert(c == 0 ==> c * s == 0) by (nonlinear_arith);
        }
        let c: usize = coord_along(o, out_strides[d], out[d]);
        if c != 0 {
            acc = acc + c * (strides[d] as usize);
        }
        d += 1;
    }
    acc
}

/// `o / stride % dim`.
pub fn coord_along(o: usize, stride: usize, dim: i64) -> (r: usize)
    requires
        stride >= 1,
        dim >= 1,
    ensures
        r == o as int / stride as int % (dim as int),
        r < dim,
{
    let q: usize = o / stride;
    let c: u64 = q as u64 % (dim as u64);
    proof {
        vstd::arithmetic::div_mod::lemma_mod_decreases(q as nat, dim as nat);
    }
    c as usize
}

/// No dimension exceeds the number of elements.
pub proof fn lemma_dim_bound(shape: Seq<i64>, d: int)
    requires
        positive(shape),
        0 <= d < shape.len(),
    ensures
        shape[d] <= suffix(shape, 0),
{
    lemma_suffix_bound(shape, d);
    lemma_suffix_positive(shape, d + 1);
    let a = shape[d] as int;
    let b = suffix(shape, d + 1);
    assert(a <= a * b) by (nonlinear_arith)
        requires
            a >= 1,
            b >= 1,
    ;
}

// --- filling ----------------------------------------------------------------------------

/// `value` where it has the size of an element, else zeros.
pub open spec fn fill_value(value: Seq<u8>, es: int) -> Seq<u8> {
    if value.len() == es {
        value
    } else {
        zeros(es)
    }
}

/// The tensor of `shape` with the same value in each element.
pub open spec fn const_of_shape_of(shape: Seq<i64>, dtype: i32, value: Seq<u8>) -> Outcome<
    TensorView,
> {
    let es = size_of_code(dtype) as int;
    if es == 0 {
        Err(Kind::Tensor)
    } else {
        match count_of(shape) {
            None => Err(Kind::Shape),
            Some(n) => Ok(
                TensorView { dtype, shape, data: strung(n, |i: int| fill_value(value, es)) },
            ),
        }
    }
}

/// A tensor of `shape` with `value` in each element, or zeros where `value` does not have
/// the size of an element.
pub fn const_of_shape(shape: Vec<i64>, dtype: i32, value: &[u8]) -> (r: Result<HostTensor>)
    ensures
        gives(r, const_of_shape_of(shape@, dtype, value@)),
{
    let es: usize = elem_size(dtype);
    if es == 0 {
        return Err(invalid_tensor("type without size"));
    }
    let n: usize = match element_count(shape.as_slice()) {
        Ok(n) => n,
        Err(e) => {
            return Err(e);
        },
    };
    let ghost f = |i: int| fill_value(value@, es as int);
    let mut data: Vec<u8> = Vec::new();
    let mut i: usize = 0;
    while i < n
        invariant
            i <= n,
            f == (|i: int| fill_value(value@, es as int)),
            data@ == strung(i as int, f),
        decreases n - i,
    {
        let ghost was = data@;
        push_fill(&mut data, value, es);
        assert(data@ == was + f(i as int));
        i += 1;
    }
    Ok(HostTensor { dtype, shape, data })
}

/// Appends `value` where it has the size of an element, else zeros.
fn push_fill(data: &mut Vec<u8>, value: &[u8], es: usize)
    ensures
        final(data)@ == old(data)@ + fill_value(value@, es as int),
{
    if value.len() == es {
        let ghost was = data@;
        data.extend_from_slice(value);
        assert(data@ =~= was + value@);
    } else {
        push_zeros(data, es);
    }
}

// --- expanding --------------------------------------------------------------------------

/// The tensor broadcast towards `target`.
pub open spec fn expand_of(t: TensorView, target: Seq<i64>) -> Outcome<TensorView> {
    let out = joint_shape(t.shape, target);
    let es = size_of_code(t.dtype) as int;
    match fault(t) {
        Some(k) => Err(k),
        None => if !joins(t.shape, target) {
            Err(Kind::Shape)
        } else if es == 0 {
            Err(Kind::Tensor)
        } else {
            match count_of(out) {
                None => Err(Kind::Shape),
                Some(n) => Ok(
                    TensorView {
                        dtype: t.dtype,
                        shape: out,
                        data: picked(t.data, es, n, |o: int| source(t.shape, out, o)),
                    },
                ),
            }
        },
    }
}

/// What broadcasts to a shape with elements has elements, and strides that can be held.
pub proof fn lemma_fit_strides(shape: Seq<i64>, out: Seq<i64>)
    requires
        fits_into(shape, out),
        positive(out),
        unit_suffix(out, 0) <= u32::MAX,
        forall|k: int| 0 <= k < shape.len() ==> 0 <= #[trigger] shape[k],
    ensures
        positive(shape),
        strides_fit(shape),
        product(shape) <= u32::MAX,
{
    assert forall|k: int| 0 <= k < shape.len() implies #[trigger] shape[k] > 0 by {
        assert(out[k + (out.len() - shape.len())] > 0);
    }
    assert forall|d: int| 0 <= d <= shape.len() implies #[trigger] clipped_suffix(shape, d)
        <= i64::MAX by {
        lemma_clipped(shape, d);
        lemma_unit_suffix(shape, d);
        lemma_unit_suffix_fits(shape, out, d);
        lemma_unit_suffix(out, d + (out.len() - shape.len()));
    }
    lemma_unit_suffix(shape, 0);
    lemma_unit_suffix_fits(shape, out, 0);
    lemma_unit_suffix(out, (out.len() - shape.len()) as int);
    lemma_whole(shape);
}

/// The bytes of an element lie within the tensor.
pub proof fn lemma_element_within(i: int, n: int, es: int)
    requires
        0 <= i < n,
        es >= 0,
    ensures
        0 <= i * es,
        i * es + es <= n * es,
{
    assert(0 <= i * es && i * es + es <= n * es) by (nonlinear_arith)
        requires
            0 <= i < n,
            es >= 0,
    ;
}

/// Broadcasts a tensor towards `target`.
pub fn expand(x: &HostTensor, target: &[i64]) -> (r: Result<HostTensor>)
    ensures
        gives(r, expand_of(x@, target@)),
{
    match x.validate() {
        Ok(_) => {},
        Err(e) => {
            return Err(e);
        },
    }
    let bc = match broadcast(x.shape.as_slice(), target) {
        Ok(bc) => bc,
        Err(e) => {
            return Err(e);
        },
    };
    let es: usize = elem_size(x.dtype);
    if es == 0 {
        return Err(invalid_tensor("type without size"));
    }
    let out = bc.out_shape;
    let n: usize = match element_count(out.as_slice()) {
        Ok(n) => n,
        Err(e) => {
            return Err(e);
        },
    };
    let ghost src = |o: int| source(x.shape@, out@, o);
    let mut data: Vec<u8> = Vec::new();
    if n > 0 {
        proof {
            lemma_sound_len(x@);
            lemma_count(x.shape@);
            lemma_joint_fits(x.shape@, target@);
            lemma_nonempty(out@);
            lemma_fit_strides(x.shape@, out@);
            lemma_whole(out@);
            lemma_count(out@);
        }
        let out_strides = strides_of(out.as_slice());
        let strides = bcast_strides(x.shape.as_slice(), out.as_slice());
        let mut o: usize = 0;
        while o < n
            invariant
                o <= n,
                positive(out@),
                positive(x.shape@),
                fits_into(x.shape@, out@),
                product(x.shape@) <= usize::MAX,
                x.data@.len() == product(x.shape@) * es,
                out_strides@.len() == out@.len(),
                strides@.len() == out@.len(),
                forall|k: int|
                    0 <= k < out@.len() ==> #[trigger] out_strides@[k] == suffix(out@, k + 1),
                forall|k: int|
                    0 <= k < out@.len() ==> #[trigger] strides@[k] == aligned_stride(
                        x.shape@,
                        out@,
                        k,
                    ),
                src == (|o: int| source(x.shape@, out@, o)),
                data@ == picked(x.data@, es as int, o as int, src),
            decreases n - o,
        {
            let s: usize = joint_place(
                out.as_slice(),
                &out_strides,
                &strides,
                o,
                Ghost(x.shape@),
            );
            proof {
                lemma_element_within(s as int, product(x.shape@), es as int);
                assert(src(o as int) == s);
            }
            push_element(&mut data, x.data.as_slice(), s, es);
            o += 1;
        }
    }
    Ok(HostTensor { dtype: x.dtype, shape: out, data })
}

// --- tiling -----------------------------------------------------------------------------

/// The shape repeated along each dimension.
pub open spec fn tiled_shape(shape: Seq<i64>, repeats: Seq<i64>) -> Seq<i64> {
    Seq::new(shape.len(), |d: int| (shape[d] * repeats[d]) as i64)
}

/// The place of the element that stands at place `o` of the repeated tensor.
pub open spec fn tile_source(shape: Seq<i64>, out: Seq<i64>, o: int) -> int {
    place(shape, |d: int| coord(out, o, d) % (shape[d] as int))
}

/// The tensor repeated `repeats[d]` times along dimension `d`.
pub open spec fn tile_of(t: TensorView, repeats: Seq<i64>) -> Outcome<TensorView> {
    let out = tiled_shape(t.shape, repeats);
    match fault(t) {
        Some(k) => Err(k),
        None => if repeats.len() != t.shape.len() || exists|d: int|
            0 <= d < repeats.len() && #[trigger] repeats[d] < 0 {
            Err(Kind::Tensor)
        } else {
            match count_of(out) {
                None => Err(Kind::Shape),
                Some(n) => Ok(
                    TensorView {
                        dtype: t.dtype,
                        shape: out,
                        data: picked(
                            t.data,
                            size_of_code(t.dtype) as int,
                            n,
                            |o: int| tile_source(t.shape, out, o),
                        ),
                    },
                ),
            }
        },
    }
}

/// Repeats a tensor `repeats[d]` times along dimension `d`.
pub fn tile(x: &HostTensor, repeats: &[i64]) -> (r: Result<HostTensor>)
    requires
        fault(x@) is None && repeats@.len() == x.shape@.len() && (forall|d: int|
            0 <= d < repeats@.len() ==> #[trigger] repeats@[d] >= 0) ==> forall|d: int|
            0 <= d < x.shape@.len() ==> #[trigger] x.shape@[d] * repeats@[d] <= i64::MAX,
    ensures
        gives(r, tile_of(x@, repeats@)),
{
    match x.validate() {
        Ok(_) => {},
        Err(e) => {
            return Err(e);
        },
    }
    let rank: usize = x.shape.len();
    if repeats.len() != rank {
        return Err(invalid_tensor("repeats do not match the rank"));
    }
    let mut d: usize = 0;
    while d < rank
        invariant
            d <= rank,
            rank == repeats@.len(),
            rank == x.shape@.len(),
            fault(x@) is None,
            forall|k: int| 0 <= k < d ==> #[trigger] repeats@[k] >= 0,
        decreases rank - d,
    {
        if repeats[d] < 0 {
            return Err(invalid_tensor("negative repeats"));
        }
        d += 1;
    }
    proof {
        lemma_sound_len(x@);
        lemma_count(x.shape@);
    }
    let es: usize = elem_size(x.dtype);
    let mut out: Vec<i64> = Vec::new();
    let mut d: usize = 0;
    while d < rank
        invariant
            d <= rank,
            rank == repeats@.len(),
            rank == x.shape@.len(),
            forall|k: int| 0 <= k < rank ==> #[trigger] repeats@[k] >= 0,
            forall|k: int| 0 <= k < rank ==> #[trigger] x.shape@[k] >= 0,
            forall|d: int|
                0 <= d < x.shape@.len() ==> #[trigger] x.shape@[d] * repeats@[d] <= i64::MAX,
            out@.len() == d,
            forall|k: int| 0 <= k < d ==> #[trigger] out@[k] == x.shape@[k] * repeats@[k],
        decreases rank - d,
    {
        let a: i64 = x.shape[d];
        let b: i64 = repeats[d];
        proof {
            assert(x.shape@[d as int] * repeats@[d as int] <= i64::MAX);
            assert(0 <= a * b) by (nonlinear_arith)
                requires
                    a >= 0,
                    b >= 0,
            ;
        }
        out.push(a * b);
        d += 1;
    }
    assert(out@ =~= tiled_shape(x.shape@, repeats@));
    let n: usize = match element_count(out.as_slice()) {
        Ok(n) => n,
        Err(e) => {
            return Err(e);
        },
    };
    let ghost src = |o: int| tile_source(x.shape@, out@, o);
    let mut data: Vec<u8> = Vec::new();
    if n > 0 && es > 0 {
        proof {
            lemma_nonempty(out@);
            lemma_count(out@);
            assert forall|k: int| 0 <= k < rank implies #[trigger] x.shape@[k] > 0 by {
                let a = x.shape@[k] as int;
                let b = repeats@[k] as int;
                assert(out@[k] > 0);
                assert(a * b > 0 ==> a != 0) by (nonlinear_arith);
            }
            lemma_whole(x.shape@);
        }
        let out_strides = strides_of(out.as_slice());
        let strides = strides_of(x.shape.as_slice());
        let mut o: usize = 0;
        while o < n
            invariant
                o <= n,
                positive(out@),
                positive(x.shape@),
                out@.len() == x.shape@.len(),
                product(x.shape@) <= usize::MAX,
                suffix(x.shape@, 0) == product(x.shape@),
                x.data@.len() == product(x.shape@) * es,
                out_strides@.len() == out@.len(),
                strides@.len() == out@.len(),
                forall|k: int|
                    0 <= k < out@.len() ==> #[trigger] out_strides@[k] == suffix(out@, k + 1),
                forall|k: int|
                    0 <= k < out@.len() ==> #[trigger] strides@[k] == suffix(x.shape@, k + 1),
                src == (|o: int| tile_source(x.shape@, out@, o)),
                data@ == picked(x.data@, es as int, o as int, src),
            decreases n - o,
        {
            let s: usize = tile_place(
                x.shape.as_slice(),
                out.as_slice(),
                &strides,
                &out_strides,
                o,
            );
            proof {
                lemma_element_within(s as int, product(x.shape@), es as int);
                assert(src(o as int) == s);
            }
            push_element(&mut data, x.data.as_slice(), s, es);
            o += 1;
        }
    } else if n > 0 {
        proof {
            lemma_picked_nothing(x.data@, n as int, src);
        }
    }
    Ok(HostTensor { dtype: x.dtype, shape: out, data })
}

proof fn lemma_picked_nothing(data: Seq<u8>, n: int, src: spec_fn(int) -> int)
    ensures
        picked(data, 0, n, src) == Seq::<u8>::empty(),
    decreases n,
{
    if n > 0 {
        lemma_picked_nothing(data, n - 1, src);
        let i = src(n - 1);
        assert(i * 0 == 0) by (nonlinear_arith);
        assert(element(data, 0, i) =~= Seq::<u8>::empty());
        assert(picked(data, 0, n, src) =~= Seq::<u8>::empty());
    }
}

/// One more coordinate keeps the place within the tensor.
pub proof fn lemma_next_place(shape: Seq<i64>, x: spec_fn(int) -> int, d: int)
    requires
        positive(shape),
        0 <= d < shape.len(),
        forall|k: int| 0 <= k < shape.len() ==> 0 <= #[trigger] x(k) < shape[k],
    ensures
        ({
            let w = |k: int| suffix(shape, k + 1);
            &&& weighted(x, w, d + 1) == weighted(x, w, d) + x(d) * suffix(shape, d + 1)
            &&& 0 <= weighted(x, w, d)
            &&& 0 <= x(d) * suffix(shape, d + 1)
            &&& weighted(x, w, d + 1) < suffix(shape, 0)
        }),
{
    let w = |k: int| suffix(shape, k + 1);
    lemma_place_bound(shape, x, d);
    lemma_place_bound(shape, x, d + 1);
    lemma_suffix_positive(shape, d + 1);
    let a = x(d);
    let b = suffix(shape, d + 1);
    assert(a * b >= 0) by (nonlinear_arith)
        requires
            a >= 0,
            b >= 1,
    ;
    assert(w(d) == b);
}

fn tile_place(
    shape: &[i64],
    out: &[i64],
    strides: &Vec<usize>,
    out_strides: &Vec<usize>,
    o: usize,
) -> (r: usize)
    requires
        positive(out@),
        positive(shape@),
        out@.len() == shape@.len(),
        suffix(shape@, 0) <= usize::MAX,
        out_strides@.len() == out@.len(),
        strides@.len() == out@.len(),
        forall|k: int| 0 <= k < out@.len() ==> #[trigger] out_strides@[k] == suffix(out@, k + 1),
        forall|k: int| 0 <= k < out@.len() ==> #[trigger] strides@[k] == suffix(shape@, k + 1),
    ensures
        r == tile_source(shape@, out@, o as int),
        r < suffix(shape@, 0),
{
    let n: usize = out.len();
    let ghost x = |d: int| coord(out@, o as int, d) % (shape@[d] as int);
    let ghost w = |k: int| suffix(shape@, k + 1);
    let mut acc: usize = 0;
    let mut d: usize = 0;
    proof {
        lemma_suffix_positive(shape@, 0);
        lemma_place_bound(shape@, x, n as int);
    }
    while d < n
        invariant
            n == out@.len(),
            d <= n,
            positive(out@),
            positive(shape@),
            out@.len() == shape@.len(),
            suffix(shape@, 0) <= usize::MAX,
            out_strides@.len() == n,
            strides@.len() == n,
            x == (|d: int| coord(out@, o as int, d) % (shape@[d] as int)),
            w == (|k: int| suffix(shape@, k + 1)),
            forall|k: int|
                0 <= k < out@.len() ==> #[trigger] out_strides@[k] == suffix(out@, k + 1),
            forall|k: int| 0 <= k < out@.len() ==> #[trigger] strides@[k] == suffix(shape@, k + 1),
            acc == weighted(x, w, d as int),
        decreases n - d,
    {
        proof {
            lemma_suffix_positive(out@, d + 1);
            lemma_coord_bound(out@, o as int, d as int);
            lemma_next_place(shape@, x, d as int);
            lemma_whole(out@);
        }
        let c: usize = coord_along(o, out_strides[d], out[d]);
        let e: usize = coord_along(c, 1, shape[d]);
        assert(e == x(d as int));
        acc = acc + e * strides[d];
        d += 1;
    }
    acc
}

// --- padding ----------------------------------------------------------------------------

/// The shape with `begins[d]` elements before and `ends[d]` after along dimension `d`.
pub open spec fn padded_shape(shape: Seq<i64>, begins: Seq<i64>, ends: Seq<i64>) -> Seq<i64> {
    Seq::new(shape.len(), |d: int| (shape[d] + begins[d] + ends[d]) as i64)
}

/// Whether the element at place `o` of the result comes from the tensor.
pub open spec fn from_inside(
    shape: Seq<i64>,
    out: Seq<i64>,
    begins: Seq<i64>,
    o: int,
) -> bool {
    forall|d: int|
        0 <= d < shape.len() ==> 0 <= #[trigger] coord(out, o, d) - begins[d] < shape[d]
}

/// The place it comes from.
pub open spec fn pad_source(shape: Seq<i64>, out: Seq<i64>, begins: Seq<i64>, o: int) -> int {
    place(shape, |d: int| coord(out, o, d) - begins[d])
}

/// The bytes at place `o` of the padded tensor.
pub open spec fn padded_at(
    t: TensorView,
    out: Seq<i64>,
    begins: Seq<i64>,
    cval: Seq<u8>,
    o: int,
) -> Seq<u8> {
    let es = size_of_code(t.dtype) as int;
    if from_inside(t.shape, out, begins, o) {
        element(t.data, es, pad_source(t.shape, out, begins, o))
    } else {
        fill_value(cval, es)
    }
}

/// The tensor with a margin, filled with `cval` or zeros.
pub open spec fn pad_of(
    t: TensorView,
    begins: Seq<i64>,
    ends: Seq<i64>,
    cval: Seq<u8>,
) -> Outcome<TensorView> {
    let out = padded_shape(t.shape, begins, ends);
    match fault(t) {
        Some(k) => Err(k),
        None => if size_of_code(t.dtype) == 0 || begins.len() != t.shape.len() || ends.len()
            != t.shape.len() {
            Err(Kind::Tensor)
        } else {
            match count_of(out) {
                None => Err(Kind::Shape),
                Some(n) => Ok(
                    TensorView {
                        dtype: t.dtype,
                        shape: out,
                        data: strung(n, |o: int| padded_at(t, out, begins, cval, o)),
                    },
                ),
            }
        },
    }
}

/// Puts a margin round a tensor, filled with `cval` where it has the size of an element, else
/// with zeros. A negative margin cuts off.
pub fn pad(data: &HostTensor, begins: &[i64], ends: &[i64], cval: &[u8]) -> (r: Result<HostTensor>)
    requires
        begins@.len() == data.shape@.len() && ends@.len() == data.shape@.len() ==> forall|d: int|
            0 <= d < data.shape@.len() ==> i64::MIN <= #[trigger] data.shape@[d] + begins@[d]
                <= i64::MAX && i64::MIN <= data.shape@[d] + begins@[d] + ends@[d] <= i64::MAX,
    ensures
        gives(r, pad_of(data@, begins@, ends@, cval@)),
{
    match data.validate() {
        Ok(_) => {},
        Err(e) => {
            return Err(e);
        },
    }
    let es: usize = elem_size(data.dtype);
    if es == 0 {
        return Err(invalid_tensor("type without size"));
    }
    let rank: usize = data.shape.len();
    if begins.len() != rank || ends.len() != rank {
        return Err(invalid_tensor("margins do not match the rank"));
    }
    let mut out: Vec<i64> = Vec::new();
    let mut d: usize = 0;
    while d < rank
        invariant
            d <= rank,
            rank == data.shape@.len(),
            rank == begins@.len(),
            rank == ends@.len(),
            forall|d: int|
                0 <= d < data.shape@.len() ==> i64::MIN <= #[trigger] data.shape@[d] + begins@[d]
                    <= i64::MAX && i64::MIN <= data.shape@[d] + begins@[d] + ends@[d] <= i64::MAX,
            out@.len() == d,
            forall|k: int|
                0 <= k < d ==> #[trigger] out@[k] == data.shape@[k] + begins@[k] + ends@[k],
        decreases rank - d,
    {
        assert(i64::MIN <= data.shape@[d as int] + begins@[d as int] <= i64::MAX);
        out.push(data.shape[d] + begins[d] + ends[d]);
        d += 1;
    }
    assert(out@ =~= padded_shape(data.shape@, begins@, ends@));
    let n: usize = match element_count(out.as_slice()) {
        Ok(n) => n,
        Err(e) => {
            return Err(e);
        },
    };
    let ghost f = |o: int| padded_at(data@, out@, begins@, cval@, o);
    let mut bytes: Vec<u8> = Vec::new();
    if n > 0 {
        proof {
            lemma_sound_len(data@);
            lemma_count(data.shape@);
            lemma_nonempty(out@);
            lemma_count(out@);
        }
        let out_strides = strides_of(out.as_slice());
        let filled = data.data.len() > 0;
        let strides = if filled {
            proof {
                assert(product(data.shape@) > 0) by {
                    let m = product(data.shape@);
                    assert(m * es > 0 ==> m != 0) by (nonlinear_arith);
                }
                lemma_nonempty(data.shape@);
            }
            strides_of(data.shape.as_slice())
        } else {
            Vec::new()
        };
        let mut o: usize = 0;
        while o < n
            invariant
                o <= n,
                rank == data.shape@.len(),
                rank == begins@.len(),
                rank == out@.len(),
                es == size_of_code(data.dtype),
                positive(out@),
                forall|k: int| 0 <= k < rank ==> #[trigger] data.shape@[k] >= 0,
                product(data.shape@) <= usize::MAX,
                data.data@.len() == product(data.shape@) * es,
                es > 0,
                filled == (data.data@.len() > 0),
                filled ==> positive(data.shape@),
                out_strides@.len() == rank,
                filled ==> strides@.len() == rank,
                forall|k: int|
                    0 <= k < out@.len() ==> #[trigger] out_strides@[k] == suffix(out@, k + 1),
                filled ==> forall|k: int|
                    0 <= k < rank ==> #[trigger] strides@[k] == suffix(data.shape@, k + 1),
                f == (|o: int| padded_at(data@, out@, begins@, cval@, o)),
                bytes@ == strung(o as int, f),
            decreases n - o,
        {
            let ghost was = bytes@;
            proof {
                if positive(data.shape@) {
                    lemma_whole(data.shape@);
                    lemma_suffix_positive(data.shape@, 0);
                    let m = product(data.shape@);
                    assert(m * es > 0) by (nonlinear_arith)
                        requires
                            m >= 1,
                            es > 0,
                    ;
                }
            }
            match pad_place(
                data.shape.as_slice(),
                out.as_slice(),
                begins,
                &out_strides,
                &strides,
                o,
            ) {
                Some(s) => {
                    proof {
                        lemma_whole(data.shape@);
                        if !filled {
                            let m = product(data.shape@);
                            assert(m > 0 && es > 0 ==> m * es > 0) by (nonlinear_arith);
                        }
                        lemma_element_within(s as int, product(data.shape@), es as int);
                    }
                    push_element(&mut bytes, data.data.as_slice(), s, es);
                },
                None => {
                    push_fill(&mut bytes, cval, es);
                },
            }
            assert(bytes@ == was + f(o as int));
            o += 1;
        }
    }
    Ok(HostTensor { dtype: data.dtype, shape: out, data: bytes })
}

/// Where the element at place `o` of the result comes from, if from the tensor.
fn pad_place(
    shape: &[i64],
    out: &[i64],
    begins: &[i64],
    out_strides: &Vec<usize>,
    strides: &Vec<usize>,
    o: usize,
) -> (r: Option<usize>)
    requires
        positive(out@),
        out@.len() == shape@.len(),
        begins@.len() == shape@.len(),
        forall|k: int| 0 <= k < shape@.len() ==> #[trigger] shape@[k] >= 0,
        product(shape@) <= usize::MAX,
        out_strides@.len() == out@.len(),
        forall|k: int| 0 <= k < out@.len() ==> #[trigger] out_strides@[k] == suffix(out@, k + 1),
        positive(shape@) ==> strides@.len() == out@.len() && forall|k: int|
            0 <= k < out@.len() ==> #[trigger] strides@[k] == suffix(shape@, k + 1),
    ensures
        match r {
            Some(s) => from_inside(shape@, out@, begins@, o as int) && s == pad_source(
                shape@,
                out@,
                begins@,
                o as int,
            ) && s < product(shape@),
            None => !from_inside(shape@, out@, begins@, o as int),
        },
{
    let n: usize = out.len();
    let ghost x = |d: int| coord(out@, o as int, d) - begins@[d];
    let ghost w = |k: int| suffix(shape@, k + 1);
    let mut d: usize = 0;
    let mut at: Vec<u64> = Vec::new();
    while d < n
        invariant
            n == out@.len(),
            n == shape@.len(),
            n == begins@.len(),
            d <= n,
            positive(out@),
            out_strides@.len() == n,
            x == (|d: int| coord(out@, o as int, d) - begins@[d]),
            forall|k: int|
                0 <= k < out@.len() ==> #[trigger] out_strides@[k] == suffix(out@, k + 1),
            forall|k: int| 0 <= k < shape@.len() ==> #[trigger] shape@[k] >= 0,
            at@.len() == d,
            forall|k: int|
                0 <= k < d ==> #[trigger] at@[k] == x(k) && 0 <= coord(out@, o as int, k)
                    - begins@[k] < shape@[k],
        decreases n - d,
    {
        proof {
            lemma_suffix_positive(out@, d + 1);
            lemma_coord_bound(out@, o as int, d as int);
        }
        let c: usize = coord_along(o, out_strides[d], out[d]);
        let i: i128 = c as i128 - begins[d] as i128;
        assert(i == x(d as int));
        if i < 0 || i >= shape[d] as i128 {
            assert(!(0 <= coord(out@, o as int, d as int) - begins@[d as int] < shape@[d as int]));
            return None;
        }
        at.push(i as u64);
        d += 1;
    }
    proof {
        assert forall|k: int| 0 <= k < n implies 0 <= #[trigger] x(k) < shape@[k] by {
            assert(at@[k] == x(k));
        }
        assert(positive(shape@)) by {
            assert forall|k: int| 0 <= k < n implies #[trigger] shape@[k] > 0 by {
                assert(at@[k] == x(k));
            }
        }
        assert(from_inside(shape@, out@, begins@, o as int)) by {
            assert forall|d: int| 0 <= d < shape@.len() implies 0 <= #[trigger] coord(
                out@,
                o as int,
                d,
            ) - begins@[d] < shape@[d] by {
                assert(at@[d] == x(d));
            }
        }
        lemma_whole(shape@);
        lemma_suffix_positive(shape@, 0);
        lemma_place_bound(shape@, x, n as int);
    }
    let mut acc: usize = 0;
    let mut d: usize = 0;
    while d < n
        invariant
            n == out@.len(),
            n == shape@.len(),
            d <= n,
            positive(shape@),
            suffix(shape@, 0) <= usize::MAX,
            strides@.len() == n,
            at@.len() == n,
            w == (|k: int| suffix(shape@, k + 1)),
            forall|k: int| 0 <= k < n ==> #[trigger] strides@[k] == suffix(shape@, k + 1),
            forall|k: int| 0 <= k < n ==> #[trigger] at@[k] == x(k),
            forall|k: int| 0 <= k < n ==> 0 <= #[trigger] x(k) < shape@[k],
            acc == weighted(x, w, d as int),
        decreases n - d,
    {
        proof {
            lemma_next_place(shape@, x, d as int);
            lemma_dim_bound(shape@, d as int);
        }
        acc = acc + (at[d] as usize) * strides[d];
        d += 1;
    }
    Some(acc)
}

} // verus!
