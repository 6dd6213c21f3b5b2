//! Writing slices into a tensor, and joining tensors along an axis.

use crate::bytes::{element, push_element, strung};
use crate::error::{invalid_tensor, Kind, Result};
use crate::graph::{elem_size, size_of_code, TensorView};
use crate::host_ops::fill::{lemma_dim_bound, lemma_element_within};
use crate::host_ops::gather::{index_ok, normal_index};
use crate::host_ops::scan::front_axis;
use crate::host_ops::{
    copy_dims, elements, fault, gives, ints_of, lemma_sound_len, HostTensor, Outcome,
};
use crate::shape::{
    count_of, lemma_count, lemma_nonempty, lemma_split_product, lemma_suffix_bound,
    lemma_suffix_positive, lemma_whole, positive, product, suffix,
};
use vstd::prelude::*;

verus! {

// --- writing slices ---------------------------------------------------------------------

/// `s` with the bytes from `at` on replaced by `piece`.
pub open spec fn written(s: Seq<u8>, at: int, piece: Seq<u8>) -> Seq<u8> {
    s.subrange(0, at) + piece + s.subrange(at + piece.len(), s.len() as int)
}

/// Whether row `r` of the indices, `k` to a row, names a slice of the tensor.
pub open spec fn row_ok(idx: Seq<i64>, shape: Seq<i64>, k: int, r: int) -> bool {
    forall|d: int| 0 <= d < k ==> index_ok(#[trigger] idx[r * k + d] as int, shape[d] as int)
}

/// The place of the slice that the first `d` indices of row `r` lead to.
pub open spec fn row_place(idx: Seq<i64>, shape: Seq<i64>, k: int, r: int, d: int) -> int
    decreases d,
{
    if d <= 0 {
        0
    } else {
        row_place(idx, shape, k, r, d - 1) + normal_index(
            idx[r * k + (d - 1)] as int,
            shape[d - 1] as int,
        ) * suffix(shape, d)
    }
}

/// The data after the first `r` rows were written, `width` bytes each.
pub open spec fn scattered(
    data: Seq<u8>,
    updates: Seq<u8>,
    idx: Seq<i64>,
    shape: Seq<i64>,
    k: int,
    es: int,
    width: int,
    r: int,
) -> Seq<u8>
    decreases r,
{
    if r <= 0 {
        data
    } else {
        written(
            scattered(data, updates, idx, shape, k, es, width, r - 1),
            row_place(idx, shape, k, r - 1, k) * es,
            element(updates, width, r - 1),
        )
    }
}

/// The number of indices to a row.
pub open spec fn row_len(indices: TensorView) -> int {
    indices.shape.last() as int
}

/// The number of rows of indices.
pub open spec fn row_count(idx: Seq<i64>, k: int) -> int {
    if k <= 0 {
        idx.len() as int
    } else {
        idx.len() as int / k
    }
}

/// The tensor with the slices that the indices name replaced by those of `updates`.
pub open spec fn scatter_nd_of(
    data: TensorView,
    indices: TensorView,
    updates: TensorView,
) -> Outcome<TensorView> {
    let es = size_of_code(data.dtype) as int;
    let k = row_len(indices);
    if let Some(f) = fault(data) {
        Err(f)
    } else if let Some(f) = fault(indices) {
        Err(f)
    } else if let Some(f) = fault(updates) {
        Err(f)
    } else if data.dtype != updates.dtype || es == 0 || indices.shape.len() == 0 || k
        > data.shape.len() {
        Err(Kind::Tensor)
    } else {
        match ints_of(indices) {
            Err(f) => Err(f),
            Ok(idx) => if elements(updates) != row_count(idx, k) * suffix(data.shape, k)
                || exists|r: int|
                0 <= r < row_count(idx, k) && !#[trigger] row_ok(idx, data.shape, k, r) {
                Err(Kind::Tensor)
            } else {
                Ok(
                    TensorView {
                        dtype: data.dtype,
                        shape: data.shape,
                        data: scattered(
                            data.data,
                            updates.data,
                            idx,
                            data.shape,
                            k,
                            es,
                            suffix(data.shape, k) * es,
                            row_count(idx, k),
                        ),
                    },
                )
            },
        }
    }
}

/// Whether slices have a countable length.
pub open spec fn scatter_sound(data: TensorView, indices: TensorView) -> bool {
    fault(data) is None && indices.shape.len() > 0 && 0 <= row_len(indices) <= data.shape.len()
        && ints_of(indices) is Ok ==> suffix(data.shape, row_len(indices)) <= usize::MAX
}

pub proof fn lemma_suffix_sign(shape: Seq<i64>, d: int)
    requires
        0 <= d <= shape.len(),
        forall|k: int| 0 <= k < shape.len() ==> #[trigger] shape[k] >= 0,
    ensures
        suffix(shape, d) >= 0,
        suffix(shape, d) >= 1 ==> forall|k: int| d <= k < shape.len() ==> #[trigger] shape[k] > 0,
    decreases shape.len() - d,
{
    if d < shape.len() {
        lemma_suffix_sign(shape, d + 1);
        let a = shape[d] as int;
        let b = suffix(shape, d + 1);
        assert(a * b >= 0 && (a * b >= 1 ==> a >= 1 && b >= 1)) by (nonlinear_arith)
            requires
                a >= 0,
                b >= 0,
        ;
    }
}

fn slice_count(shape: &[i64], k: usize) -> (r: usize)
    requires
        k <= shape@.len(),
        forall|d: int| 0 <= d < shape@.len() ==> #[trigger] shape@[d] >= 0,
        suffix(shape@, k as int) <= usize::MAX,
    ensures
        r == suffix(shape@, k as int),
{
    let n: usize = shape.len();
    let mut i: usize = k;
    while i < n
        invariant
            k <= i <= n,
            n == shape@.len(),
            forall|d: int| 0 <= d < shape@.len() ==> #[trigger] shape@[d] >= 0,
            forall|d: int| k <= d < i ==> #[trigger] shape@[d] > 0,
        decreases n - i,
    {
        if shape[i] == 0 {
            proof {
                lemma_suffix_sign(shape@, k as int);
            }
            return 0;
        }
        i += 1;
    }
    let mut acc: usize = 1;
    let mut d: usize = n;
    while d > k
        invariant
            k <= d <= n,
            n == shape@.len(),
            forall|d: int| 0 <= d < shape@.len() ==> #[trigger] shape@[d] >= 0,
            forall|d: int| k <= d < n ==> #[trigger] shape@[d] > 0,
            suffix(shape@, k as int) <= usize::MAX,
            acc == suffix(shape@, d as int),
            acc >= 1,
        decreases d,
    {
        d -= 1;
        proof {
            lemma_tail_bound(shape@, k as int, d as int);
            let a = shape@[d as int] as int;
            let b = acc as int;
            assert(a * b == b * a) by (nonlinear_arith);
            assert(a <= a * b && 1 <= a * b) by (nonlinear_arith)
                requires
                    a >= 1,
                    b >= 1,
            ;
        }
        acc = acc * (shape[d] as usize);
    }
    acc
}

proof fn lemma_tail_bound(shape: Seq<i64>, k: int, d: int)
    requires
        0 <= k <= d <= shape.len(),
        forall|i: int| k <= i < shape.len() ==> #[trigger] shape[i] > 0,
    ensures
        1 <= suffix(shape, d) <= suffix(shape, k),
    decreases d,
{
    lemma_tail_positive(shape, k, d);
    if d > k {
        lemma_tail_bound(shape, k, d - 1);
        let a = shape[d - 1] as int;
        let b = suffix(shape, d);
        assert(b <= a * b) by (nonlinear_arith)
            requires
                a >= 1,
                b >= 1,
        ;
    }
}

proof fn lemma_tail_positive(shape: Seq<i64>, k: int, d: int)
    requires
        0 <= k <= d <= shape.len(),
        forall|i: int| k <= i < shape.len() ==> #[trigger] shape[i] > 0,
    ensures
        1 <= suffix(shape, d),
    decreases shape.len() - d,
{
    if d < shape.len() {
        lemma_tail_positive(shape, k, d + 1);
        let a = shape[d] as int;
        let b = suffix(shape, d + 1);
        assert(1 <= a * b) by (nonlinear_arith)
            requires
                a >= 1,
                b >= 1,
        ;
    }
}

/// The slice that a row of valid indices names lies within the tensor.
proof fn lemma_row_place(idx: Seq<i64>, shape: Seq<i64>, k: int, r: int, d: int)
    requires
        0 <= d <= k <= shape.len(),
        row_ok(idx, shape, k, r),
        positive(shape),
    ensures
        0 <= row_place(idx, shape, k, r, d),
        row_place(idx, shape, k, r, d) + suffix(shape, d) <= suffix(shape, 0),
    decreases d,
{
    if d > 0 {
        lemma_row_place(idx, shape, k, r, d - 1);
        lemma_suffix_positive(shape, d);
        assert(index_ok(idx[r * k + (d - 1)] as int, shape[d - 1] as int));
        let g = normal_index(idx[r * k + (d - 1)] as int, shape[d - 1] as int);
        let a = shape[d - 1] as int;
        let b = suffix(shape, d);
        assert(0 <= g * b && g * b + b <= a * b) by (nonlinear_arith)
            requires
                0 <= g < a,
                b >= 1,
        ;
    }
}

/// Tests a row of indices.
fn check_row(idx: &Vec<i64>, shape: &[i64], k: usize, r: usize) -> (ok: bool)
    requires
        k <= shape@.len(),
        r * k + k <= idx@.len(),
        forall|d: int| 0 <= d < shape@.len() ==> #[trigger] shape@[d] >= 0,
    ensures
        ok == row_ok(idx@, shape@, k as int, r as int),
{
    let n: usize = idx.len();
    let mut d: usize = 0;
    proof {
        assert(0 <= r * k) by (nonlinear_arith);
    }
    let base: usize = r * k;
    while d < k
        invariant
            d <= k,
            k <= shape@.len(),
            base == r * k,
            base + k <= n,
            n == idx@.len(),
            forall|d: int| 0 <= d < shape@.len() ==> #[trigger] shape@[d] >= 0,
            forall|j: int| 0 <= j < d ==> index_ok(#[trigger] idx@[base + j] as int, shape@[j] as int),
        decreases k - d,
    {
        let c: i64 = idx[base + d];
        let g: i64 = if c < 0 {
            c + shape[d]
        } else {
            c
        };
        if g < 0 || g >= shape[d] {
            assert(!index_ok(idx@[r * k + d] as int, shape@[d as int] as int));
            return false;
        }
        d += 1;
    }
    assert forall|d: int| 0 <= d < k implies index_ok(
        #[trigger] idx@[r as int * k as int + d] as int,
        shape@[d] as int,
    ) by {
        assert(index_ok(idx@[base + d] as int, shape@[d] as int));
    }
    true
}

/// The place that a row of valid indices names.
fn find_row(idx: &Vec<i64>, shape: &[i64], strides: &Vec<usize>, k: usize, r: usize) -> (at: usize)
    requires
        k <= shape@.len(),
        r * k + k <= idx@.len(),
        positive(shape@),
        suffix(shape@, 0) <= usize::MAX,
        row_ok(idx@, shape@, k as int, r as int),
        strides@.len() == shape@.len(),
        forall|d: int| 0 <= d < strides@.len() ==> #[trigger] strides@[d] == suffix(shape@, d + 1),
    ensures
        at == row_place(idx@, shape@, k as int, r as int, k as int),
{
    let n: usize = idx.len();
    proof {
        assert(0 <= r * k) by (nonlinear_arith);
    }
    let base: usize = r * k;
    let mut at: usize = 0;
    let mut d: usize = 0;
    while d < k
        invariant
            d <= k,
            k <= shape@.len(),
            base == r * k,
            base + k <= n,
            n == idx@.len(),
            positive(shape@),
            suffix(shape@, 0) <= usize::MAX,
            row_ok(idx@, shape@, k as int, r as int),
            strides@.len() == shape@.len(),
            forall|d: int|
                0 <= d < strides@.len() ==> #[trigger] strides@[d] == suffix(shape@, d + 1),
            at == row_place(idx@, shape@, k as int, r as int, d as int),
        decreases k - d,
    {
        let c: i64 = idx[base + d];
        proof {
            assert(index_ok(idx@[r as int * k as int + d] as int, shape@[d as int] as int));
            lemma_row_place(idx@, shape@, k as int, r as int, d as int);
            lemma_row_place(idx@, shape@, k as int, r as int, d + 1);
            lemma_suffix_positive(shape@, d + 1);
            lemma_dim_bound(shape@, d as int);
            let g = normal_index(c as int, shape@[d as int] as int);
            let b = suffix(shape@, d + 1);
            assert(0 <= g * b) by (nonlinear_arith)
                requires
                    g >= 0,
                    b >= 1,
            ;
        }
        let g: i64 = if c < 0 {
            c + shape[d]
        } else {
            c
        };
        at = at + (g as usize) * strides[d];
        d += 1;
    }
    at
}

/// Replaces the bytes of `out` from `at` on by element `r` of `src`, of `width` bytes.
fn overwrite(out: &mut Vec<u8>, at: usize, src: &[u8], r: usize, width: usize)
    requires
        at + width <= old(out)@.len(),
        r * width + width <= src@.len(),
    ensures
        final(out)@ == written(old(out)@, at as int, element(src@, width as int, r as int)),
{
    let n: usize = src.len();
    proof {
        assert(0 <= r * width) by (nonlinear_arith);
    }
    let from: usize = r * width;
    let len: usize = out.len();
    let mut j: usize = 0;
    while j < width
        invariant
            j <= width,
            from == r * width,
            from + width <= n,
            n == src@.len(),
            at + width <= len,
            len == out@.len(),
            len == old(out)@.len(),
            forall|i: int|
                0 <= i < len ==> #[trigger] out@[i] == if at <= i < at + j {
                    src@[from + (i - at)]
                } else {
                    old(out)@[i]
                },
        decreases width - j,
    {
        out.set(at + j, src[from + j]);
        j += 1;
    }
    assert(out@ =~= written(old(out)@, at as int, element(src@, width as int, r as int)));
}

/// Copies `data` and replaces the slices that the rows of `indices` name by those of
/// `updates`, in order.
pub fn scatter_nd(data: &HostTensor, indices: &HostTensor, updates: &HostTensor) -> (r: Result<
    HostTensor,
>)
    requires
        scatter_sound(data@, indices@),
    ensures
        gives(r, scatter_nd_of(data@, indices@, updates@)),
{
    match data.validate() {
        Ok(_) => {},
        Err(e) => {
            return Err(e);
        },
    }
    match indices.validate() {
        Ok(_) => {},
        Err(e) => {
            return Err(e);
        },
    }
    match updates.validate() {
        Ok(_) => {},
        Err(e) => {
            return Err(e);
        },
    }
    if data.dtype != updates.dtype {
        return Err(invalid_tensor("updates of another type"));
    }
    let es: usize = elem_size(data.dtype);
    if es == 0 {
        return Err(invalid_tensor("type without size"));
    }
    if indices.shape.len() == 0 {
        return Err(invalid_tensor("indices without dimensions"));
    }
    proof {
        lemma_sound_len(data@);
        lemma_count(data.shape@);
        lemma_sound_len(indices@);
        lemma_count(indices.shape@);
        lemma_sound_len(updates@);
        assert(indices.shape@.last() == indices.shape@[indices.shape@.len() - 1]);
    }
    let last: i64 = indices.shape[indices.shape.len() - 1];
    if last as u64 > data.shape.len() as u64 {
        return Err(invalid_tensor("more indices than dimensions"));
    }
    let k: usize = last as usize;
    let idx = match indices.to_i64() {
        Ok(v) => v,
        Err(e) => {
            return Err(e);
        },
    };
    let len: usize = slice_count(data.shape.as_slice(), k);
    let rows: usize = if k == 0 {
        idx.len()
    } else {
        idx.len() / k
    };
    let count: usize = updates.elem_count();
    proof {
        let x = rows as int;
        let y = len as int;
        assert(0 <= x * y <= 0xffff_ffff_ffff_ffff * 0xffff_ffff_ffff_ffff) by (nonlinear_arith)
            requires
                0 <= x <= 0xffff_ffff_ffff_ffff,
                0 <= y <= 0xffff_ffff_ffff_ffff,
        ;
    }
    let wanted: u128 = rows as u128 * len as u128;
    if count as u128 != wanted {
        return Err(invalid_tensor("updates do not match the indices"));
    }
    let ghost ki = k as int;
    proof {
        let n = idx@.len() as int;
        if k > 0 {
            assert(n / ki * ki <= n) by (nonlinear_arith)
                requires
                    ki > 0,
            ;
        } else {
            lemma_zero_last(indices.shape@);
            assert(n == 0);
        }
    }
    let mut r: usize = 0;
    while r < rows
        invariant
            r <= rows,
            rows == row_count(idx@, ki),
            k == ki,
            k == row_len(indices@),
            k <= data.shape@.len(),
            rows * k <= idx@.len(),
            forall|d: int| 0 <= d < data.shape@.len() ==> #[trigger] data.shape@[d] >= 0,
            fault(data@) is None,
            fault(indices@) is None,
            fault(updates@) is None,
            data.dtype == updates.dtype,
            size_of_code(data.dtype) != 0,
            indices.shape@.len() != 0,
            ints_of(indices@) == Ok::<Seq<i64>, Kind>(idx@),
            forall|q: int| 0 <= q < r ==> #[trigger] row_ok(idx@, data.shape@, ki, q),
        decreases rows - r,
    {
        proof {
            let ri = r as int;
            let ro = rows as int;
            assert(ri * ki + ki <= ro * ki) by (nonlinear_arith)
                requires
                    ri < ro,
                    ki >= 0,
            ;
        }
        if !check_row(&idx, data.shape.as_slice(), k, r) {
            return Err(invalid_tensor("index out of range"));
        }
        r += 1;
    }
    let mut out: Vec<u8> = data.data.clone();
    assert(out@ =~= data.data@);
    let ghost width0 = suffix(data.shape@, ki) * es;
    if len == 0 {
        proof {
            lemma_no_slices(
                data.data@,
                updates.data@,
                idx@,
                data.shape@,
                ki,
                es as int,
                rows as int,
            );
        }
    } else if rows > 0 {
        proof {
            assert(row_ok(idx@, data.shape@, ki, 0));
            lemma_suffix_sign(data.shape@, ki);
            lemma_rows_positive(idx@, data.shape@, ki);
            lemma_whole(data.shape@);
            lemma_suffix_bound(data.shape@, ki);
            let total = product(data.shape@);
            let l = len as int;
            let e = es as int;
            assert(l * e <= total * e) by (nonlinear_arith)
                requires
                    l <= total,
                    e >= 0,
            ;
            assert(0 <= l * e) by (nonlinear_arith)
                requires
                    l >= 0,
                    e >= 0,
            ;
        }
        let have: usize = data.data.len();
        let width: usize = len * es;
        let strides = crate::shape::strides_of(data.shape.as_slice());
        let mut r: usize = 0;
        while r < rows
            invariant
                r <= rows,
                k == ki,
                k <= data.shape@.len(),
                rows * k <= idx@.len(),
                positive(data.shape@),
                suffix(data.shape@, 0) == product(data.shape@),
                product(data.shape@) <= usize::MAX,
                data.data@.len() == product(data.shape@) * es,
                data.data@.len() == have,
                len == suffix(data.shape@, ki),
                width == width0,
                width == len * es,
                updates.data@.len() == (rows * len) * es,
                strides@.len() == data.shape@.len(),
                forall|d: int|
                    0 <= d < strides@.len() ==> #[trigger] strides@[d] == suffix(
                        data.shape@,
                        d + 1,
                    ),
                forall|q: int| 0 <= q < rows ==> #[trigger] row_ok(idx@, data.shape@, ki, q),
                out@.len() == have,
                out@ == scattered(
                    data.data@,
                    updates.data@,
                    idx@,
                    data.shape@,
                    ki,
                    es as int,
                    width0,
                    r as int,
                ),
            decreases rows - r,
        {
            proof {
                let ri = r as int;
                let ro = rows as int;
                assert(ri * ki + ki <= ro * ki) by (nonlinear_arith)
                    requires
                        ri < ro,
                        ki >= 0,
                ;
                assert(row_ok(idx@, data.shape@, ki, ri));
                lemma_row_place(idx@, data.shape@, ki, ri, ki);
            }
            let at: usize = find_row(&idx, data.shape.as_slice(), &strides, k, r);
            proof {
                let a = at as int;
                let l = len as int;
                let e = es as int;
                let t = product(data.shape@);
                let ri = r as int;
                let ro = rows as int;
                let wi = width as int;
                assert(0 <= a * e && a * e + l * e <= t * e) by (nonlinear_arith)
                    requires
                        0 <= a,
                        a + l <= t,
                        e >= 0,
                ;
                assert((ro * l) * e == ro * (l * e)) by (nonlinear_arith);
                assert(ri * wi + wi <= ro * wi) by (nonlinear_arith)
                    requires
                        ri < ro,
                        wi >= 0,
                ;
                assert(0 <= ri * wi) by (nonlinear_arith)
                    requires
                        ri >= 0,
                        wi >= 0,
                ;
            }
            overwrite(&mut out, at * es, updates.data.as_slice(), r, width);
            r += 1;
        }
    }
    Ok(HostTensor { dtype: data.dtype, shape: copy_dims(data.shape.as_slice()), data: out })
}

/// Slices without elements are written to the start of a tensor that has none either.
proof fn lemma_no_slices(
    data: Seq<u8>,
    updates: Seq<u8>,
    idx: Seq<i64>,
    shape: Seq<i64>,
    k: int,
    es: int,
    r: int,
)
    requires
        0 <= k <= shape.len(),
        suffix(shape, k) == 0,
        updates.len() == 0,
    ensures
        scattered(data, updates, idx, shape, k, es, suffix(shape, k) * es, r) == data,
    decreases r,
{
    assert(0 * es == 0) by (nonlinear_arith);
    if r > 0 {
        lemma_no_slices(data, updates, idx, shape, k, es, r - 1);
        lemma_no_place(idx, shape, k, r - 1, k);
        assert((r - 1) * 0 == 0) by (nonlinear_arith);
        assert(element(updates, 0, r - 1) =~= Seq::empty());
        assert(written(data, 0, Seq::empty()) =~= data);
    }
}

proof fn lemma_no_place(idx: Seq<i64>, shape: Seq<i64>, k: int, r: int, d: int)
    requires
        0 <= d <= k <= shape.len(),
        suffix(shape, k) == 0,
    ensures
        suffix(shape, d) == 0,
        row_place(idx, shape, k, r, d) == 0,
    decreases d,
{
    lemma_no_suffix(shape, k, d);
    if d > 0 {
        lemma_no_place(idx, shape, k, r, d - 1);
        let g = normal_index(idx[r * k + (d - 1)] as int, shape[d - 1] as int);
        assert(g * 0 == 0) by (nonlinear_arith);
    }
}

proof fn lemma_no_suffix(shape: Seq<i64>, k: int, d: int)
    requires
        0 <= d <= k <= shape.len(),
        suffix(shape, k) == 0,
    ensures
        suffix(shape, d) == 0,
    decreases k - d,
{
    if d < k {
        lemma_no_suffix(shape, k, d + 1);
        let a = shape[d] as int;
        assert(a * 0 == 0) by (nonlinear_arith);
    }
}

proof fn lemma_zero_last(shape: Seq<i64>)
    requires
        shape.len() > 0,
        shape.last() == 0,
        count_of(shape) is Some,
    ensures
        count_of(shape) == Some(0int),
{
    let n = count_of(shape.drop_last())->0;
    assert(n * 0 == 0) by (nonlinear_arith);
}

/// Valid indices for leading dimensions and elements behind them leave no dimension empty.
proof fn lemma_rows_positive(idx: Seq<i64>, shape: Seq<i64>, k: int)
    requires
        0 <= k <= shape.len(),
        row_ok(idx, shape, k, 0),
        forall|d: int| k <= d < shape.len() ==> #[trigger] shape[d] > 0,
    ensures
        positive(shape),
{
    assert forall|d: int| 0 <= d < shape.len() implies #[trigger] shape[d] > 0 by {
        if d < k {
            assert(0 * k == 0) by (nonlinear_arith);
            assert(index_ok(idx[0 * k + d] as int, shape[d] as int));
        }
    }
}

// --- joining along an axis --------------------------------------------------------------

/// The tensors of a list.
pub open spec fn views(ts: Seq<HostTensor>) -> Seq<TensorView> {
    ts.map_values(|t: HostTensor| t@)
}

/// What is wrong with the first unsound tensor of the list.
pub open spec fn first_fault(ts: Seq<TensorView>) -> Option<Kind>
    decreases ts.len(),
{
    if ts.len() == 0 {
        None
    } else {
        match first_fault(ts.drop_last()) {
            Some(k) => Some(k),
            None => fault(ts.last()),
        }
    }
}

/// Whether `t` agrees with `base` in type and in all dimensions but the axis.
pub open spec fn agrees(t: TensorView, base: TensorView, axis: int) -> bool {
    &&& t.dtype == base.dtype
    &&& t.shape.len() == base.shape.len()
    &&& forall|d: int|
        0 <= d < base.shape.len() && d != axis ==> #[trigger] t.shape[d] == base.shape[d]
}

/// The sum of the dimensions along the axis.
pub open spec fn axis_sum(ts: Seq<TensorView>, axis: int) -> int
    decreases ts.len(),
{
    if ts.len() == 0 {
        0
    } else {
        axis_sum(ts.drop_last(), axis) + ts.last().shape[axis]
    }
}

/// The bytes that a tensor contributes to each row of the result.
pub open spec fn row_width(t: TensorView, axis: int) -> int {
    suffix(t.shape, axis) * size_of_code(t.dtype)
}

/// The parts of row `o`, one of each tensor.
pub open spec fn joined_row(ts: Seq<TensorView>, axis: int, o: int) -> Seq<u8>
    decreases ts.len(),
{
    if ts.len() == 0 {
        Seq::empty()
    } else {
        joined_row(ts.drop_last(), axis, o) + element(
            ts.last().data,
            row_width(ts.last(), axis),
            o,
        )
    }
}

/// The tensors joined along the axis.
pub open spec fn concat_of(ts: Seq<TensorView>, axis: int) -> Outcome<TensorView> {
    if ts.len() == 0 {
        Err(Kind::Tensor)
    } else if let Some(k) = first_fault(ts) {
        Err(k)
    } else {
        let base = ts[0];
        let a = front_axis(axis, base.shape.len() as int);
        if size_of_code(base.dtype) == 0 || !(0 <= a < base.shape.len()) || exists|i: int|
            0 <= i < ts.len() && !agrees(#[trigger] ts[i], base, a) {
            Err(Kind::Tensor)
        } else {
            Ok(
                TensorView {
                    dtype: base.dtype,
                    shape: base.shape.update(a, axis_sum(ts, a) as i64),
                    data: strung(
                        product(base.shape.take(a)),
                        |o: int| joined_row(ts, a, o),
                    ),
                },
            )
        }
    }
}

/// Whether no sum of leading dimensions along the axis leaves the range of 64-bit integers.
pub open spec fn axis_sums_fit(ts: Seq<TensorView>, axis: int) -> bool {
    forall|i: int| 0 <= i <= ts.len() ==> #[trigger] axis_sum(ts.take(i), axis) <= i64::MAX
}

fn agree(t: &HostTensor, base: &HostTensor, axis: usize) -> (r: bool)
    ensures
        r == agrees(t@, base@, axis as int),
{
    if t.dtype != base.dtype || t.shape.len() != base.shape.len() {
        return false;
    }
    let n: usize = base.shape.len();
    let mut d: usize = 0;
    while d < n
        invariant
            d <= n,
            n == base.shape@.len(),
            n == t.shape@.len(),
            forall|k: int| 0 <= k < d && k != axis ==> #[trigger] t.shape@[k] == base.shape@[k],
        decreases n - d,
    {
        if d != axis && t.shape[d] != base.shape[d] {
            assert(t@.shape[d as int] != base@.shape[d as int]);
            return false;
        }
        d += 1;
    }
    true
}

proof fn lemma_no_fault(ts: Seq<TensorView>, i: int)
    requires
        first_fault(ts) is None,
        0 <= i < ts.len(),
    ensures
        fault(ts[i]) is None,
    decreases ts.len(),
{
    if i < ts.len() - 1 {
        lemma_no_fault(ts.drop_last(), i);
        assert(ts.drop_last()[i] == ts[i]);
    }
}

proof fn lemma_fault_stays(ts: Seq<TensorView>, i: int)
    requires
        0 <= i <= ts.len(),
        first_fault(ts.take(i)) is Some,
    ensures
        first_fault(ts) == first_fault(ts.take(i)),
    decreases ts.len() - i,
{
    if i < ts.len() {
        assert(ts.take(i + 1).drop_last() =~= ts.take(i));
        lemma_fault_stays(ts, i + 1);
    } else {
        assert(ts.take(i) =~= ts);
    }
}

/// How a sound tensor splits into rows in front of the axis.
pub proof fn lemma_rows(t: TensorView, axis: int)
    requires
        fault(t) is None,
        size_of_code(t.dtype) > 0,
        0 <= axis < t.shape.len(),
    ensures
        t.data.len() == product(t.shape.take(axis)) * row_width(t, axis),
        0 <= row_width(t, axis),
        0 <= product(t.shape.take(axis)),
        t.data.len() > 0 ==> row_width(t, axis) <= t.data.len() && product(t.shape.take(axis))
            <= t.data.len(),
        t.data.len() == 0 ==> row_width(t, axis) == 0 || product(t.shape.take(axis)) == 0,
{
    lemma_sound_len(t);
    lemma_count(t.shape);
    lemma_split_product(t.shape, axis);
    lemma_suffix_sign(t.shape, axis);
    let front = t.shape.take(axis);
    lemma_suffix_sign(front, 0);
    lemma_whole(front);
    let a = product(front);
    let b = suffix(t.shape, axis);
    let e = size_of_code(t.dtype) as int;
    let w = b * e;
    assert((a * b) * e == a * w) by (nonlinear_arith)
        requires
            w == b * e,
    ;
    assert(w >= 0) by (nonlinear_arith)
        requires
            w == b * e,
            b >= 0,
            e >= 0,
    ;
    assert(a * w > 0 ==> w <= a * w && a <= a * w) by (nonlinear_arith)
        requires
            a >= 0,
            w >= 0,
    ;
    assert(a * w == 0 ==> w == 0 || a == 0) by (nonlinear_arith);
}

/// The dimensions in front of the axis are those of the first tensor.
proof fn lemma_same_front(t: TensorView, base: TensorView, axis: int)
    requires
        agrees(t, base, axis),
        0 <= axis < base.shape.len(),
    ensures
        t.shape.take(axis) == base.shape.take(axis),
{
    assert(t.shape.take(axis) =~= base.shape.take(axis));
}

proof fn lemma_rows_empty(ts: Seq<TensorView>, axis: int, o: int)
    requires
        forall|i: int| 0 <= i < ts.len() ==> row_width(#[trigger] ts[i], axis) == 0 && ts[i].data.len() == 0,
    ensures
        joined_row(ts, axis, o) == Seq::<u8>::empty(),
    decreases ts.len(),
{
    if ts.len() > 0 {
        let rest = ts.drop_last();
        assert forall|i: int| 0 <= i < rest.len() implies row_width(#[trigger] rest[i], axis) == 0
            && rest[i].data.len() == 0 by {
            assert(rest[i] == ts[i]);
        }
        lemma_rows_empty(rest, axis, o);
        assert(ts.last() == ts[ts.len() - 1]);
        assert(o * 0 == 0) by (nonlinear_arith);
        assert(element(ts.last().data, 0, o) =~= Seq::<u8>::empty());
        assert(joined_row(ts, axis, o) =~= Seq::<u8>::empty());
    }
}

proof fn lemma_strung_empty(n: int, f: spec_fn(int) -> Seq<u8>)
    requires
        forall|o: int| 0 <= o < n ==> #[trigger] f(o) == Seq::<u8>::empty(),
    ensures
        strung(n, f) == Seq::<u8>::empty(),
    decreases n,
{
    if n > 0 {
        lemma_strung_empty(n - 1, f);
        assert(f(n - 1) == Seq::<u8>::empty());
        assert(strung(n, f) =~= Seq::<u8>::empty());
    }
}

/// The number of rows in front of the axis, for a tensor with elements.
fn front_count(shape: &[i64], axis: usize) -> (r: usize)
    requires
        axis < shape@.len(),
        positive(shape@),
        product(shape@) <= usize::MAX,
    ensures
        r == product(shape@.take(axis as int)),
{
    let mut n: usize = 1;
    let mut i: usize = 0;
    assert(shape@.take(0) =~= Seq::empty());
    while i < axis
        invariant
            i <= axis,
            axis < shape@.len(),
            positive(shape@),
            product(shape@) <= usize::MAX,
            n == product(shape@.take(i as int)),
            n >= 1,
        decreases axis - i,
    {
        proof {
            assert(shape@.take(i + 1).drop_last() =~= shape@.take(i as int));
            lemma_split_product(shape@, i + 1);
            lemma_suffix_positive(shape@, i + 1);
            let p = product(shape@.take(i + 1));
            let q = suffix(shape@, i + 1);
            let x = n as int;
            let y = shape@[i as int] as int;
            assert(1 <= p && y <= p) by (nonlinear_arith)
                requires
                    p == x * y,
                    x >= 1,
                    y >= 1,
            ;
            assert(p <= p * q) by (nonlinear_arith)
                requires
                    p >= 1,
                    q >= 1,
            ;
        }
        n = n * (shape[i] as usize);
        i += 1;
    }
    n
}

/// Joins tensors along `axis`. They agree in type and in all other dimensions.
pub fn concat(inputs: &[HostTensor], axis: i64) -> (r: Result<HostTensor>)
    requires
        inputs@.len() > 0 ==> inputs@[0].shape@.len() <= i64::MAX && axis_sums_fit(
            views(inputs@),
            front_axis(axis as int, inputs@[0].shape@.len() as int),
        ),
    ensures
        gives(r, concat_of(views(inputs@), axis as int)),
{
    let n: usize = inputs.len();
    if n == 0 {
        return Err(invalid_tensor("nothing to join"));
    }
    let ghost ts = views(inputs@);
    let mut i: usize = 0;
    assert(ts.take(0) =~= Seq::empty());
    while i < n
        invariant
            i <= n,
            n == inputs@.len(),
            n > 0,
            ts == views(inputs@),
            first_fault(ts.take(i as int)) is None,
        decreases n - i,
    {
        assert(ts.take(i + 1).drop_last() =~= ts.take(i as int));
        assert(ts.take(i + 1).last() == inputs@[i as int]@);
        match inputs[i].validate() {
            Ok(_) => {},
            Err(e) => {
                proof {
                    lemma_fault_stays(ts, i + 1);
                }
                return Err(e);
            },
        }
        i += 1;
    }
    assert(ts.take(n as int) =~= ts);
    let base: &HostTensor = &inputs[0];
    assert(ts[0] == base@);
    let es: usize = elem_size(base.dtype);
    if es == 0 {
        return Err(invalid_tensor("type without size"));
    }
    let rank: i64 = base.shape.len() as i64;
    let a: i64 = if axis < 0 {
        axis + rank
    } else {
        axis
    };
    if a < 0 || a >= rank {
        return Err(invalid_tensor("axis out of range"));
    }
    let a: usize = a as usize;
    let mut sum: i64 = 0;
    let mut filled = false;
    let mut i: usize = 0;
    while i < n
        invariant
            i <= n,
            n == inputs@.len(),
            n > 0,
            ts == views(inputs@),
            *base == inputs@[0],
            a < base.shape@.len(),
            a == front_axis(axis as int, base.shape@.len() as int),
            first_fault(ts) is None,
            axis_sums_fit(ts, a as int),
            size_of_code(base.dtype) != 0,
            forall|k: int| 0 <= k < i ==> agrees(#[trigger] ts[k], base@, a as int),
            sum == axis_sum(ts.take(i as int), a as int),
            sum >= 0,
            filled == exists|k: int| 0 <= k < i && (#[trigger] ts[k]).data.len() > 0,
        decreases n - i,
    {
        let t: &HostTensor = &inputs[i];
        assert(ts[i as int] == t@);
        if !agree(t, base, a) {
            return Err(invalid_tensor("tensors of different types or shapes"));
        }
        proof {
            assert(ts.take(i + 1).drop_last() =~= ts.take(i as int));
            assert(ts.take(i + 1).last() == t@);
            lemma_no_fault(ts, i as int);
            lemma_sound_len(t@);
            lemma_count(t.shape@);
            assert(axis_sum(ts.take(i + 1), a as int) <= i64::MAX);
        }
        sum = sum + t.shape[a];
        if t.data.len() > 0 {
            filled = true;
        }
        i += 1;
    }
    let mut shape = copy_dims(base.shape.as_slice());
    shape.set(a, sum);
    let ghost f = |o: int| joined_row(ts, a as int, o);
    let ghost outer0 = product(base.shape@.take(a as int));
    let mut data: Vec<u8> = Vec::new();
    if filled {
        let (outer, widths) = row_widths(inputs, a, es, Ghost(ts));
        let mut o: usize = 0;
        while o < outer
            invariant
                o <= outer,
                outer == outer0,
                n == inputs@.len(),
                ts == views(inputs@),
                widths@.len() == n,
                forall|k: int| 0 <= k < n ==> #[trigger] widths@[k] == row_width(ts[k], a as int),
                forall|k: int|
                    0 <= k < n ==> (#[trigger] ts[k]).data.len() == outer0 * row_width(
                        ts[k],
                        a as int,
                    ),
                f == (|o: int| joined_row(ts, a as int, o)),
                data@ == strung(o as int, f),
            decreases outer - o,
        {
            let ghost was = data@;
            let mut j: usize = 0;
            assert(ts.take(0) =~= Seq::empty());
            assert(was + Seq::<u8>::empty() =~= was);
            while j < n
                invariant
                    j <= n,
                    o < outer,
                    outer == outer0,
                    n == inputs@.len(),
                    ts == views(inputs@),
                    widths@.len() == n,
                    forall|k: int|
                        0 <= k < n ==> #[trigger] widths@[k] == row_width(ts[k], a as int),
                    forall|k: int|
                        0 <= k < n ==> (#[trigger] ts[k]).data.len() == outer0 * row_width(
                            ts[k],
                            a as int,
                        ),
                    data@ == was + joined_row(ts.take(j as int), a as int, o as int),
                decreases n - j,
            {
                let t: &HostTensor = &inputs[j];
                let w: usize = widths[j];
                proof {
                    assert(ts[j as int] == t@);
                    assert(ts.take(j + 1).drop_last() =~= ts.take(j as int));
                    assert(ts.take(j + 1).last() == t@);
                    lemma_element_within(o as int, outer0, w as int);
                }
                let ghost row = joined_row(ts.take(j as int), a as int, o as int);
                push_element(&mut data, t.data.as_slice(), o, w);
                assert(data@ =~= was + (row + element(t.data@, w as int, o as int)));
                j += 1;
            }
            assert(ts.take(n as int) =~= ts);
            assert(data@ == was + f(o as int));
            o += 1;
        }
    } else {
        proof {
            assert forall|i: int| 0 <= i < ts.len() implies row_width(#[trigger] ts[i], a as int)
                == 0 && ts[i].data.len() == 0 || outer0 == 0 by {
                lemma_no_fault(ts, i);
                assert(agrees(ts[i], base@, a as int));
                lemma_rows(ts[i], a as int);
                lemma_same_front(ts[i], base@, a as int);
            }
            assert forall|o: int| 0 <= o < outer0 implies #[trigger] f(o) == Seq::<u8>::empty() by {
                lemma_rows_empty(ts, a as int, o);
            }
            lemma_strung_empty(outer0, f);
        }
    }
    Ok(HostTensor { dtype: base.dtype, shape, data })
}

/// The number of rows, and the bytes that each tensor contributes to one.
fn row_widths(inputs: &[HostTensor], a: usize, es: usize, Ghost(ts): Ghost<Seq<TensorView>>) -> (r: (
    usize,
    Vec<usize>,
))
    requires
        inputs@.len() > 0,
        ts == views(inputs@),
        first_fault(ts) is None,
        a < ts[0].shape.len(),
        es == size_of_code(ts[0].dtype),
        es > 0,
        forall|k: int| 0 <= k < ts.len() ==> agrees(#[trigger] ts[k], ts[0], a as int),
        exists|k: int| 0 <= k < ts.len() && (#[trigger] ts[k]).data.len() > 0,
    ensures
        r.0 == product(ts[0].shape.take(a as int)),
        r.1@.len() == inputs@.len(),
        forall|k: int| 0 <= k < r.1@.len() ==> #[trigger] r.1@[k] == row_width(ts[k], a as int),
        forall|k: int|
            0 <= k < ts.len() ==> (#[trigger] ts[k]).data.len() == product(
                ts[0].shape.take(a as int),
            ) * row_width(ts[k], a as int),
{
    let n: usize = inputs.len();
    let ghost outer0 = product(ts[0].shape.take(a as int));
    proof {
        assert forall|k: int| 0 <= k < ts.len() implies (#[trigger] ts[k]).data.len() == outer0
            * row_width(ts[k], a as int) by {
            lemma_no_fault(ts, k);
            assert(agrees(ts[k], ts[0], a as int));
            lemma_rows(ts[k], a as int);
            lemma_same_front(ts[k], ts[0], a as int);
        }
    }
    let mut outer: usize = 0;
    let mut found = false;
    let mut widths: Vec<usize> = Vec::new();
    let mut i: usize = 0;
    while i < n
        invariant
            i <= n,
            n == inputs@.len(),
            ts == views(inputs@),
            first_fault(ts) is None,
            a < ts[0].shape.len(),
            es == size_of_code(ts[0].dtype),
            es > 0,
            outer0 == product(ts[0].shape.take(a as int)),
            forall|k: int| 0 <= k < ts.len() ==> agrees(#[trigger] ts[k], ts[0], a as int),
            found == exists|k: int| 0 <= k < i && (#[trigger] ts[k]).data.len() > 0,
            found ==> outer == outer0 && outer0 >= 1,
            widths@.len() == i,
            found ==> forall|k: int|
                0 <= k < i ==> #[trigger] widths@[k] == row_width(ts[k], a as int),
            !found ==> forall|k: int| 0 <= k < i ==> #[trigger] widths@[k] == 0,
        decreases n - i,
    {
        let t: &HostTensor = &inputs[i];
        let have: usize = t.data.len();
        proof {
            assert(ts[i as int] == t@);
            lemma_no_fault(ts, i as int);
            assert(agrees(ts[i as int], ts[0], a as int));
            lemma_rows(t@, a as int);
            lemma_same_front(t@, ts[0], a as int);
            lemma_sound_len(t@);
            lemma_count(t.shape@);
        }
        if have > 0 {
            proof {
                let m = product(t.shape@);
                assert(m * es > 0 ==> m != 0) by (nonlinear_arith);
                lemma_nonempty(t.shape@);
            }
            outer = front_count(t.shape.as_slice(), a);
            proof {
                let w = row_width(t@, a as int);
                assert(outer0 * w / outer0 == w) by (nonlinear_arith)
                    requires
                        outer0 >= 1,
                ;
                if !found {
                    assert forall|k: int| 0 <= k < i implies #[trigger] widths@[k] == row_width(
                        ts[k],
                        a as int,
                    ) by {
                        lemma_no_fault(ts, k);
                        assert(agrees(ts[k], ts[0], a as int));
                        lemma_rows(ts[k], a as int);
                        lemma_same_front(ts[k], ts[0], a as int);
                        assert(ts[k].data.len() == 0);
                    }
                }
            }
            found = true;
            widths.push(have / outer);
        } else {
            widths.push(0);
        }
        i += 1;
    }
    (outer, widths)
}

} // verus!
