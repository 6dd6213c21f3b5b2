//! Cutting tensors on the host, and what undoes it.

use crate::bytes::{element, lemma_picked_element, lemma_picked_len, picked, strung};
use crate::error::Kind;
use crate::graph::{code_bits, size_of_code, storage_of, TensorView};
use crate::host_ops::fill::{
    fill_value, from_inside, pad_of, pad_source, padded_at, padded_shape,
};
use crate::host_ops::join::{
    agrees, axis_sum, concat_of, first_fault, joined_row, lemma_rows, lemma_suffix_sign, row_width,
};
use crate::host_ops::select::{
    entry_axis, range_len, range_start, ranges, ranges_within, slice_of, slice_params_of,
    slice_source, Ranges,
};
use crate::host_ops::{fault, lemma_sound_len};
use crate::interp::cut_steps::parts_of;
use crate::interp::layout::{part_shape, part_start, split_start, unit_steps};
use crate::interp::transpose_laws::law_coords_of_place;
use crate::num::in_range;
use crate::shape::{
    coord, count_of, law_place_of_coords, lemma_coord_bound, lemma_count, lemma_nonempty,
    lemma_peel, lemma_place_bound, lemma_split_product, lemma_suffix_positive, lemma_weighted_same, lemma_whole, place, positive,
    product, suffix,
};
use vstd::arithmetic::div_mod::{
    lemma_div_denominator, lemma_fundamental_div_mod_converse, lemma_mod_multiples_vanish,
};
use vstd::prelude::*;

verus! {

// --- splitting and joining -----------------------------------------------------------------

/// The product of the dimensions from `d` up to `b`.
spec fn span(shape: Seq<i64>, d: int, b: int) -> int
    decreases b - d,
{
    if d >= b {
        1
    } else {
        shape[d] * span(shape, d + 1, b)
    }
}

proof fn lemma_span(shape: Seq<i64>, d: int, b: int)
    requires
        0 <= d <= b <= shape.len(),
        positive(shape),
    ensures
        suffix(shape, d) == span(shape, d, b) * suffix(shape, b),
        span(shape, d, b) >= 1,
    decreases b - d,
{
    if d < b {
        lemma_span(shape, d + 1, b);
        let x = shape[d] as int;
        let y = span(shape, d + 1, b);
        let z = suffix(shape, b);
        assert(x * (y * z) == (x * y) * z && x * y >= 1) by (nonlinear_arith)
            requires
                x >= 1,
                y >= 1,
        ;
    }
}

proof fn lemma_same_span(shape: Seq<i64>, out: Seq<i64>, d: int, b: int)
    requires
        0 <= d <= b <= shape.len(),
        shape.len() == out.len(),
        forall|k: int| 0 <= k < b ==> #[trigger] shape[k] == out[k],
    ensures
        span(shape, d, b) == span(out, d, b),
    decreases b - d,
{
    if d < b {
        lemma_same_span(shape, out, d + 1, b);
        assert(shape[d] == out[d]);
    }
}

proof fn lemma_same_suffix(shape: Seq<i64>, out: Seq<i64>, d: int)
    requires
        0 <= d <= shape.len(),
        shape.len() == out.len(),
        forall|k: int| d <= k < shape.len() ==> #[trigger] shape[k] == out[k],
    ensures
        suffix(shape, d) == suffix(out, d),
    decreases shape.len() - d,
{
    if d < shape.len() {
        lemma_same_suffix(shape, out, d + 1);
        assert(shape[d] == out[d]);
    }
}

/// The ranges of a part of `size` that begins at `start`.
spec fn part_ranges(shape: Seq<i64>, axis: int, size: i64, start: int) -> Ranges {
    Ranges {
        out: part_shape(shape, axis, size),
        start: part_start(shape, axis, start),
        step: unit_steps(shape),
    }
}

/// Where element `e` of row `o` of a part comes from, coordinate by coordinate.
proof fn lemma_part_coord(shape: Seq<i64>, axis: int, size: i64, start: int, o: int, e: int, d: int)
    requires
        0 <= axis < shape.len(),
        0 <= d < shape.len(),
        positive(shape),
        size > 0,
        0 <= start,
        start + size <= shape[axis],
        0 <= o,
        0 <= e < size * suffix(shape, axis + 1),
    ensures
        ({
            let r = part_ranges(shape, axis, size, start);
            let inner = suffix(shape, axis + 1);
            coord(shape, o * (shape[axis] * inner) + start * inner + e, d) == r.start[d] + coord(
                r.out,
                o * (size * inner) + e,
                d,
            ) * r.step[d]
        }),
{
    let out = part_shape(shape, axis, size);
    let inner = suffix(shape, axis + 1);
    let dim = shape[axis] as int;
    let s = size as int;
    let whole = dim * inner;
    let part = s * inner;
    let i = o * part + e;
    let j = o * whole + start * inner + e;
    assert(positive(out));
    lemma_suffix_positive(shape, axis + 1);
    lemma_same_suffix(shape, out, axis + 1);
    assert(0 <= i && 0 <= j) by (nonlinear_arith)
        requires
            i == o * part + e,
            j == o * whole + start * inner + e,
            part == s * inner,
            whole == dim * inner,
            0 <= o,
            0 <= e,
            0 <= start,
            inner >= 1,
            s >= 1,
            dim >= 1,
    ;
    if d > axis {
        lemma_same_suffix(shape, out, d);
        lemma_same_suffix(shape, out, d + 1);
        lemma_peel(shape, j, d);
        lemma_peel(out, i, d);
        lemma_span(shape, axis + 1, d);
        lemma_suffix_positive(shape, d);
        let m = span(shape, axis + 1, d);
        let t = suffix(shape, d);
        assert(i == t * (o * s * m) + e && j == t * ((o * dim + start) * m) + e)
            by (nonlinear_arith)
            requires
                i == o * part + e,
                j == o * whole + start * inner + e,
                part == s * inner,
                whole == dim * inner,
                inner == m * t,
        ;
        lemma_mod_multiples_vanish(o * s * m, e, t);
        lemma_mod_multiples_vanish((o * dim + start) * m, e, t);
    } else if d == axis {
        let k = e / inner;
        assert(0 <= k < s && e == k * inner + e % inner && 0 <= e % inner < inner)
            by (nonlinear_arith)
            requires
                k == e / inner,
                0 <= e < s * inner,
                inner >= 1,
        ;
        let rest = e % inner;
        assert(i == inner * (o * s + k) + rest && j == inner * (o * dim + start + k) + rest)
            by (nonlinear_arith)
            requires
                i == o * part + e,
                j == o * whole + start * inner + e,
                part == s * inner,
                whole == dim * inner,
                e == k * inner + rest,
        ;
        assert(inner * (o * s + k) == (o * s + k) * inner) by (nonlinear_arith);
        assert(inner * (o * dim + start + k) == (o * dim + start + k) * inner) by (nonlinear_arith);
        lemma_fundamental_div_mod_converse(i, inner, o * s + k, rest);
        lemma_fundamental_div_mod_converse(j, inner, o * dim + start + k, rest);
        lemma_fundamental_div_mod_converse(o * s + k, s, o, k);
        lemma_fundamental_div_mod_converse(o * dim + start + k, dim, o, start + k);
    } else {
        lemma_span(shape, d + 1, axis);
        lemma_span(out, d + 1, axis);
        lemma_same_span(shape, out, d + 1, axis);
        let m = span(shape, d + 1, axis);
        assert(suffix(shape, axis) == whole);
        assert(suffix(out, axis) == part);
        assert(part >= 1 && whole >= 1 && 0 <= start * inner + e < whole && o * part == part * o
            && o * whole == whole * o && m * part == part * m && m * whole == whole * m)
            by (nonlinear_arith)
            requires
                part == s * inner,
                whole == dim * inner,
                inner >= 1,
                s >= 1,
                dim >= 1,
                0 <= start,
                start + s <= dim,
                0 <= e < s * inner,
        ;
        lemma_fundamental_div_mod_converse(i, part, o, e);
        lemma_fundamental_div_mod_converse(j, whole, o, start * inner + e);
        lemma_div_denominator(i, part, m);
        lemma_div_denominator(j, whole, m);
    }
}

/// Where element `e` of row `o` of a part comes from.
proof fn lemma_part_source(shape: Seq<i64>, axis: int, size: i64, start: int, o: int, e: int)
    requires
        0 <= axis < shape.len(),
        positive(shape),
        size > 0,
        0 <= start,
        start + size <= shape[axis],
        0 <= o < product(shape.take(axis)),
        0 <= e < size * suffix(shape, axis + 1),
    ensures
        ({
            let inner = suffix(shape, axis + 1);
            let j = o * (shape[axis] * inner) + start * inner + e;
            &&& slice_source(
                shape,
                part_ranges(shape, axis, size, start),
                o * (size * inner) + e,
            ) == j
            &&& 0 <= j < product(shape)
        }),
{
    let r = part_ranges(shape, axis, size, start);
    let inner = suffix(shape, axis + 1);
    let dim = shape[axis] as int;
    let s = size as int;
    let i = o * (s * inner) + e;
    let j = o * (dim * inner) + start * inner + e;
    let front = product(shape.take(axis));
    lemma_suffix_positive(shape, axis + 1);
    lemma_split_product(shape, axis);
    lemma_whole(shape);
    assert(0 <= j < front * (dim * inner)) by (nonlinear_arith)
        requires
            j == o * (dim * inner) + start * inner + e,
            0 <= o < front,
            0 <= e < s * inner,
            0 <= start,
            start + s <= dim,
            inner >= 1,
    ;
    let f = |d: int| r.start[d] + coord(r.out, i, d) * r.step[d];
    let g = |d: int| coord(shape, j, d);
    let w = |k: int| suffix(shape, k + 1);
    assert forall|d: int| 0 <= d < shape.len() implies (#[trigger] f(d)) * w(d) == g(d) * w(d) by {
        lemma_part_coord(shape, axis, size, start, o, e, d);
    }
    lemma_weighted_same(f, w, g, w, shape.len() as int);
    law_place_of_coords(shape, j);
}

/// All elements of a part come from within the tensor.
proof fn lemma_part_within(t: TensorView, axis: int, size: i64, start: int, i: int)
    requires
        fault(t) is None,
        size_of_code(t.dtype) > 0,
        0 <= axis < t.shape.len(),
        positive(t.shape),
        size > 0,
        0 <= start,
        start + size <= t.shape[axis],
        0 <= i < product(part_shape(t.shape, axis, size)),
    ensures
        ({
            let j = slice_source(t.shape, part_ranges(t.shape, axis, size, start), i);
            let es = size_of_code(t.dtype) as int;
            0 <= j && j * es + es <= t.data.len()
        }),
{
    let shape = t.shape;
    let out = part_shape(shape, axis, size);
    let inner = suffix(shape, axis + 1);
    let part = size * inner;
    let es = size_of_code(t.dtype) as int;
    lemma_sound_len(t);
    lemma_count(shape);
    lemma_suffix_positive(shape, axis + 1);
    lemma_same_suffix(shape, out, axis + 1);
    lemma_split_product(out, axis);
    assert(out.take(axis) =~= shape.take(axis));
    let front = product(shape.take(axis));
    let o = i / part;
    let e = i % part;
    assert(part >= 1) by (nonlinear_arith)
        requires
            part == size * inner,
            size >= 1,
            inner >= 1,
    ;
    assert(0 <= o < front && 0 <= e < part && i == o * part + e) by (nonlinear_arith)
        requires
            o == i / part,
            e == i % part,
            0 <= i < front * part,
            part >= 1,
    ;
    lemma_part_source(shape, axis, size, start, o, e);
    let j = slice_source(shape, part_ranges(shape, axis, size, start), i);
    let n = product(shape);
    assert(j * es + es <= n * es) by (nonlinear_arith)
        requires
            0 <= j < n,
            es > 0,
    ;
}

/// A part is sound.
proof fn lemma_part_sound(t: TensorView, axis: int, size: i64, start: int, p: TensorView)
    requires
        fault(t) is None,
        size_of_code(t.dtype) > 0,
        0 <= axis < t.shape.len(),
        0 <= size,
        0 <= start,
        start + size <= t.shape[axis],
        slice_of(t, part_ranges(t.shape, axis, size, start)) == Ok::<TensorView, Kind>(p),
    ensures
        fault(p) is None,
        count_of(p.shape) matches Some(n) && n > 0 ==> positive(t.shape) && size > 0,
{
    let shape = t.shape;
    let r = part_ranges(shape, axis, size, start);
    let es = size_of_code(t.dtype) as int;
    let src = |o: int| slice_source(shape, r, o);
    let m = count_of(r.out)->0;
    let n = count_of(shape)->0;
    lemma_count(r.out);
    lemma_count(shape);
    lemma_sound_len(t);
    if m > 0 {
        lemma_nonempty(r.out);
        assert(r.out[axis] == size);
        assert(positive(shape)) by {
            assert forall|k: int| 0 <= k < shape.len() implies #[trigger] shape[k] > 0 by {
                assert(r.out[k] > 0);
            }
        }
        assert forall|i: int| 0 <= i < m implies 0 <= #[trigger] src(i) && src(i) * es + es
            <= t.data.len() by {
            lemma_part_within(t, axis, size, start, i);
        }
    }
    lemma_picked_len(t.data, es, m, src);
    assert(p.data == picked(t.data, es, m, src));
    lemma_same_suffix(shape, r.out, axis + 1);
    lemma_split_product(shape, axis);
    lemma_split_product(r.out, axis);
    assert(r.out.take(axis) =~= shape.take(axis));
    lemma_rows(t, axis);
    lemma_suffix_sign(shape, axis + 1);
    let front = product(shape.take(axis));
    let inner = suffix(shape, axis + 1);
    let dim = shape[axis] as int;
    assert(front * (size * inner) <= front * (dim * inner)) by (nonlinear_arith)
        requires
            0 <= size <= dim,
            0 <= front,
            0 <= inner,
    ;
    let bits = code_bits(t.dtype)->0 as int;
    assert(bits == 8 * es);
    assert(m * bits <= n * bits && m * bits == 8 * (m * es)) by (nonlinear_arith)
        requires
            m <= n,
            bits == 8 * es,
            es > 0,
    ;
    assert(storage_of(t.dtype, m) == Some(m * es));
}

/// Row `o` of a part is a run of bytes of the tensor.
proof fn lemma_part_row(t: TensorView, axis: int, size: i64, start: int, o: int, p: TensorView)
    requires
        fault(t) is None,
        size_of_code(t.dtype) > 0,
        0 <= axis < t.shape.len(),
        0 <= size,
        0 <= start,
        start + size <= t.shape[axis],
        0 <= o < product(t.shape.take(axis)),
        slice_of(t, part_ranges(t.shape, axis, size, start)) == Ok::<TensorView, Kind>(p),
    ensures
        ({
            let inner = suffix(t.shape, axis + 1);
            let es = size_of_code(t.dtype) as int;
            let from = o * (t.shape[axis] * inner) + start * inner;
            &&& 0 <= from * es <= (from + size * inner) * es <= t.data.len()
            &&& element(p.data, row_width(p, axis), o) == t.data.subrange(
                from * es,
                (from + size * inner) * es,
            )
        }),
{
    let shape = t.shape;
    let r = part_ranges(shape, axis, size, start);
    let es = size_of_code(t.dtype) as int;
    let inner = suffix(shape, axis + 1);
    let dim = shape[axis] as int;
    let s = size as int;
    let part = s * inner;
    let from = o * (dim * inner) + start * inner;
    let front = product(shape.take(axis));
    let src = |i: int| slice_source(shape, r, i);
    lemma_count(shape);
    lemma_count(r.out);
    lemma_sound_len(t);
    lemma_suffix_sign(shape, axis + 1);
    lemma_split_product(shape, axis);
    lemma_same_suffix(shape, r.out, axis + 1);
    lemma_split_product(r.out, axis);
    assert(r.out.take(axis) =~= shape.take(axis));
    let n = product(shape);
    assert(0 <= from * es && from * es <= (from + part) * es && (from + part) * es <= n * es)
        by (nonlinear_arith)
        requires
            from == o * (dim * inner) + start * inner,
            part == s * inner,
            n == front * (dim * inner),
            0 <= o < front,
            0 <= start,
            0 <= s,
            start + s <= dim,
            0 <= inner,
            es > 0,
    ;
    let width = row_width(p, axis);
    assert(width == part * es);
    let row = element(p.data, width, o);
    let want = t.data.subrange(from * es, (from + part) * es);
    lemma_part_sound(t, axis, size, start, p);
    lemma_rows(p, axis);
    assert(0 <= o * width && o * width + width <= p.data.len()) by (nonlinear_arith)
        requires
            0 <= o < front,
            0 <= width,
            p.data.len() == front * width,
    ;
    assert((from + part) * es == from * es + width) by (nonlinear_arith)
        requires
            width == part * es,
    ;
    assert(row.len() == want.len());
    assert forall|y: int| 0 <= y < width implies row[y] == want[y] by {
        let k = y / es;
        let b = y % es;
        assert(y == k * es + b && 0 <= b < es && 0 <= k < part) by (nonlinear_arith)
            requires
                k == y / es,
                b == y % es,
                0 <= y < part * es,
                es > 0,
        ;
        let m = product(r.out);
        let i = o * part + k;
        assert(0 <= i < m) by (nonlinear_arith)
            requires
                i == o * part + k,
                m == front * part,
                0 <= k < part,
                0 <= o < front,
        ;
        assert(count_of(r.out) == Some(m));
        assert forall|i: int| 0 <= i < m implies 0 <= #[trigger] src(i) && src(i) * es + es
            <= t.data.len() by {
            lemma_part_within(t, axis, size, start, i);
        }
        lemma_picked_len(t.data, es, m, src);
        lemma_picked_element(t.data, es, m, src, i);
        lemma_part_source(shape, axis, size, start, o, k);
        assert(src(i) == from + k);
        assert(p.data == picked(t.data, es, m, src));
        assert(o * width + y == i * es + b) by (nonlinear_arith)
            requires
                width == part * es,
                i == o * part + k,
                y == k * es + b,
        ;
        assert(from * es + y == (from + k) * es + b) by (nonlinear_arith)
            requires
                y == k * es + b,
        ;
        assert(0 <= i * es && i * es + es <= m * es && 0 <= (from + k) * es) by (nonlinear_arith)
            requires
                0 <= i < m,
                es > 0,
                0 <= from + k,
        ;
        assert(element(p.data, es, i)[b] == element(t.data, es, from + k)[b]);
    }
    assert(row =~= want);
}

/// The parts of a split, one by one.
proof fn lemma_parts(t: TensorView, axis: int, sizes: Seq<i64>, k: int, ps: Seq<TensorView>)
    requires
        0 <= k,
        0 <= axis < t.shape.len(),
        parts_of(t, t.shape, axis, sizes, k) == Some(ps),
    ensures
        ps.len() == k,
        in_range(split_start(sizes, k)),
        forall|j: int| 0 <= j < k ==> #[trigger] sizes[j] >= 0,
        forall|j: int|
            0 <= j < k ==> slice_of(
                t,
                part_ranges(t.shape, axis, sizes[j], split_start(sizes, j)),
            ) == Ok::<TensorView, Kind>(#[trigger] ps[j]),
    decreases k,
{
    if k > 0 {
        let r = part_ranges(t.shape, axis, sizes[k - 1], split_start(sizes, k - 1));
        let rest = parts_of(t, t.shape, axis, sizes, k - 1)->Some_0;
        lemma_parts(t, axis, sizes, k - 1, rest);
        lemma_count(r.out);
        assert(r.out[axis] == sizes[k - 1]);
        assert(ps == rest.push(slice_of(t, r)->Ok_0));
        assert forall|j: int| 0 <= j < k implies #[trigger] sizes[j] >= 0 by {}
        assert forall|j: int| 0 <= j < k implies slice_of(
            t,
            part_ranges(t.shape, axis, sizes[j], split_start(sizes, j)),
        ) == Ok::<TensorView, Kind>(#[trigger] ps[j]) by {
            if j < k - 1 {
                assert(ps[j] == rest[j]);
            } else {
                assert(j == k - 1);
                assert(ps[j] == slice_of(t, r)->Ok_0);
            }
        }
    }
}

/// The parts follow one another.
proof fn lemma_starts(sizes: Seq<i64>, a: int, b: int)
    requires
        0 <= a <= b,
        forall|j: int| 0 <= j < b ==> #[trigger] sizes[j] >= 0,
    ensures
        0 <= split_start(sizes, a) <= split_start(sizes, b),
    decreases b,
{
    if a < b {
        lemma_starts(sizes, a, b - 1);
        assert(sizes[b - 1] >= 0);
    } else if b > 0 {
        lemma_starts(sizes, a - 1, b - 1);
        assert(sizes[b - 1] >= 0);
    }
}

/// What the first `k` parts hold of row `o`.
proof fn lemma_joined_row(
    t: TensorView,
    axis: int,
    sizes: Seq<i64>,
    ps: Seq<TensorView>,
    o: int,
    k: int,
)
    requires
        fault(t) is None,
        size_of_code(t.dtype) > 0,
        0 <= axis < t.shape.len(),
        parts_of(t, t.shape, axis, sizes, sizes.len() as int) == Some(ps),
        split_start(sizes, sizes.len() as int) == t.shape[axis],
        0 <= o < product(t.shape.take(axis)),
        0 <= k <= sizes.len(),
    ensures
        ({
            let inner = suffix(t.shape, axis + 1);
            let es = size_of_code(t.dtype) as int;
            let from = o * (t.shape[axis] * inner);
            &&& 0 <= from * es <= (from + split_start(sizes, k) * inner) * es <= t.data.len()
            &&& joined_row(ps.take(k), axis, o) == t.data.subrange(
                from * es,
                (from + split_start(sizes, k) * inner) * es,
            )
        }),
    decreases k,
{
    let inner = suffix(t.shape, axis + 1);
    let es = size_of_code(t.dtype) as int;
    let from = o * (t.shape[axis] * inner);
    let n = sizes.len() as int;
    lemma_parts(t, axis, sizes, n, ps);
    lemma_starts(sizes, k, n);
    if k == 0 {
        lemma_rows(t, axis);
        let front = product(t.shape.take(axis));
        let whole = t.shape[axis] * inner;
        let width = row_width(t, axis);
        assert(0 <= (o * whole) * es && (o * whole) * es <= front * width) by (nonlinear_arith)
            requires
                width == whole * es,
                0 <= width,
                0 <= o < front,
        ;
        assert(split_start(sizes, 0) * inner == 0) by (nonlinear_arith)
            requires
                split_start(sizes, 0) == 0,
        ;
        assert(ps.take(0) =~= Seq::empty());
        assert(t.data.subrange(from * es, from * es) =~= Seq::empty());
    } else {
        lemma_joined_row(t, axis, sizes, ps, o, k - 1);
        lemma_starts(sizes, k - 1, n);
        let q = split_start(sizes, k - 1);
        let s = sizes[k - 1] as int;
        assert(ps[k - 1] == ps.take(k).last());
        lemma_part_row(t, axis, sizes[k - 1], q, o, ps[k - 1]);
        assert(ps.take(k).drop_last() =~= ps.take(k - 1));
        assert((q + s) * inner == q * inner + s * inner) by (nonlinear_arith);
        let x = from * es;
        let y = (from + q * inner) * es;
        let z = (from + (q + s) * inner) * es;
        assert(t.data.subrange(x, y) + t.data.subrange(y, z) =~= t.data.subrange(x, z));
    }
}

proof fn lemma_joined_rows(
    t: TensorView,
    axis: int,
    sizes: Seq<i64>,
    ps: Seq<TensorView>,
    rows: spec_fn(int) -> Seq<u8>,
    m: int,
)
    requires
        fault(t) is None,
        size_of_code(t.dtype) > 0,
        0 <= axis < t.shape.len(),
        parts_of(t, t.shape, axis, sizes, sizes.len() as int) == Some(ps),
        split_start(sizes, sizes.len() as int) == t.shape[axis],
        0 <= m <= product(t.shape.take(axis)),
        forall|o: int| #[trigger] rows(o) == joined_row(ps, axis, o),
    ensures
        0 <= m * row_width(t, axis) <= t.data.len(),
        strung(m, rows) == t.data.take(m * row_width(t, axis)),
    decreases m,
{
    let width = row_width(t, axis);
    let front = product(t.shape.take(axis));
    lemma_rows(t, axis);
    assert(0 <= m * width <= front * width) by (nonlinear_arith)
        requires
            0 <= width,
            0 <= m <= front,
    ;
    if m > 0 {
        lemma_joined_rows(t, axis, sizes, ps, rows, m - 1);
        let n = sizes.len() as int;
        lemma_parts(t, axis, sizes, n, ps);
        lemma_joined_row(t, axis, sizes, ps, m - 1, n);
        assert(ps.take(n) =~= ps);
        let inner = suffix(t.shape, axis + 1);
        let dim = t.shape[axis] as int;
        let es = size_of_code(t.dtype) as int;
        let whole = dim * inner;
        assert(((m - 1) * whole) * es == (m - 1) * width && ((m - 1) * whole + whole) * es == m
            * width) by (nonlinear_arith)
            requires
                width == whole * es,
        ;
        let x = (m - 1) * width;
        let y = m * width;
        assert(rows(m - 1) == t.data.subrange(x, y));
        assert(t.data.take(x) + t.data.subrange(x, y) =~= t.data.take(y));
    } else {
        assert(m * width == 0) by (nonlinear_arith)
            requires
                m == 0,
        ;
        assert(t.data.take(0) =~= Seq::empty());
    }
}

proof fn lemma_parts_agree(t: TensorView, axis: int, sizes: Seq<i64>, ps: Seq<TensorView>, k: int)
    requires
        fault(t) is None,
        size_of_code(t.dtype) > 0,
        0 <= axis < t.shape.len(),
        parts_of(t, t.shape, axis, sizes, sizes.len() as int) == Some(ps),
        split_start(sizes, sizes.len() as int) == t.shape[axis],
        0 <= k <= sizes.len(),
    ensures
        first_fault(ps.take(k)) is None,
        axis_sum(ps.take(k), axis) == split_start(sizes, k),
    decreases k,
{
    let n = sizes.len() as int;
    lemma_parts(t, axis, sizes, n, ps);
    if k > 0 {
        lemma_parts_agree(t, axis, sizes, ps, k - 1);
        lemma_starts(sizes, k - 1, n);
        lemma_starts(sizes, k, n);
        assert(ps.take(k).drop_last() =~= ps.take(k - 1));
        assert(ps.take(k).last() == ps[k - 1]);
        lemma_part_sound(t, axis, sizes[k - 1], split_start(sizes, k - 1), ps[k - 1]);
    }
}

proof fn lemma_count_shrinks(shape: Seq<i64>, out: Seq<i64>)
    requires
        count_of(shape) is Some,
        shape.len() == out.len(),
        forall|d: int| 0 <= d < shape.len() ==> 0 <= #[trigger] out[d] <= shape[d],
    ensures
        count_of(out) is Some,
        0 <= count_of(out)->Some_0 <= count_of(shape)->Some_0,
    decreases shape.len(),
{
    if shape.len() > 0 {
        lemma_count_shrinks(shape.drop_last(), out.drop_last());
        let a = count_of(out.drop_last())->Some_0;
        let b = count_of(shape.drop_last())->Some_0;
        let x = out.last() as int;
        let y = shape.last() as int;
        assert(out[shape.len() - 1] == x);
        assert(0 <= a * x <= b * y) by (nonlinear_arith)
            requires
                0 <= a <= b,
                0 <= x <= y,
        ;
    }
}

proof fn lemma_split_succeeds(t: TensorView, axis: int, sizes: Seq<i64>, k: int)
    requires
        fault(t) is None,
        size_of_code(t.dtype) > 0,
        0 <= axis < t.shape.len(),
        forall|j: int| 0 <= j < sizes.len() ==> #[trigger] sizes[j] >= 0,
        split_start(sizes, sizes.len() as int) <= t.shape[axis],
        0 <= k <= sizes.len(),
    ensures
        parts_of(t, t.shape, axis, sizes, k) is Some,
    decreases k,
{
    if k > 0 {
        lemma_split_succeeds(t, axis, sizes, k - 1);
        let n = sizes.len() as int;
        lemma_starts(sizes, k - 1, n);
        lemma_starts(sizes, k, n);
        let s = sizes[k - 1];
        let q = split_start(sizes, k - 1);
        let r = part_ranges(t.shape, axis, s, q);
        lemma_count(t.shape);
        lemma_count_shrinks(t.shape, r.out);
        assert forall|d: int, c: int| 0 <= d < t.shape.len() && 0 <= c < r.out[d] implies 0
            <= r.start[d] + #[trigger] (c * r.step[d]) < t.shape[d] by {
            assert(c * r.step[d] == c) by (nonlinear_arith)
                requires
                    r.step[d] == 1,
            ;
        }
        assert(ranges_within(t.shape, r));
        assert(slice_of(t, r) is Ok);
    }
}

/// A split into parts that lie within the dimension succeeds.
pub proof fn law_split_succeeds(t: TensorView, axis: int, sizes: Seq<i64>)
    requires
        fault(t) is None,
        size_of_code(t.dtype) > 0,
        0 <= axis < t.shape.len(),
        forall|j: int| 0 <= j < sizes.len() ==> #[trigger] sizes[j] >= 0,
        split_start(sizes, sizes.len() as int) <= t.shape[axis],
    ensures
        parts_of(t, t.shape, axis, sizes, sizes.len() as int) is Some,
{
    lemma_split_succeeds(t, axis, sizes, sizes.len() as int);
}

/// Joining the parts of a split along the same axis gives back the tensor, where the sizes add
/// up to the dimension.
pub proof fn law_join_undoes_split(
    t: TensorView,
    axis: int,
    sizes: Seq<i64>,
    parts: Seq<TensorView>,
)
    requires
        0 <= axis < t.shape.len(),
        sizes.len() > 0,
        split_start(sizes, sizes.len() as int) == t.shape[axis],
        parts_of(t, t.shape, axis, sizes, sizes.len() as int) == Some(parts),
    ensures
        concat_of(parts, axis) == Ok::<TensorView, Kind>(t),
{
    let n = sizes.len() as int;
    lemma_parts(t, axis, sizes, n, parts);
    assert(parts[0].dtype == t.dtype);
    assert(fault(t) is None && size_of_code(t.dtype) > 0);
    lemma_parts_agree(t, axis, sizes, parts, n);
    assert(parts.take(n) =~= parts);
    let base = parts[0];
    assert forall|i: int| 0 <= i < parts.len() implies agrees(#[trigger] parts[i], base, axis) by {}
    assert(base.shape.update(axis, axis_sum(parts, axis) as i64) =~= t.shape);
    assert(base.shape.take(axis) =~= t.shape.take(axis));
    let rows = |o: int| joined_row(parts, axis, o);
    let front = product(t.shape.take(axis));
    lemma_rows(t, axis);
    lemma_joined_rows(t, axis, sizes, parts, rows, front);
    assert(t.data.take(t.data.len() as int) =~= t.data);
}

/// **Joining undoes a cut by slices**: the part of a tensor up to `at` and the part from there on,
/// as slices give them, make up the tensor again.
pub proof fn law_join_undoes_slices(
    t: TensorView,
    axis: int,
    at: i64,
    front: TensorView,
    back: TensorView,
)
    requires
        0 <= axis < t.shape.len() <= i64::MAX,
        0 <= at <= t.shape[axis],
        slice_params_of(
            t.shape,
            seq![0i64],
            seq![at],
            Some(seq![axis as i64]),
            None,
        ) matches Ok(r) && slice_of(t, r) == Ok::<TensorView, Kind>(front),
        slice_params_of(
            t.shape,
            seq![at],
            seq![t.shape[axis]],
            Some(seq![axis as i64]),
            None,
        ) matches Ok(r) && slice_of(t, r) == Ok::<TensorView, Kind>(back),
    ensures
        concat_of(seq![front, back], axis) == Ok::<TensorView, Kind>(t),
{
    let dim = t.shape[axis];
    let ax = Some(seq![axis as i64]);
    let rest = (dim - at) as i64;
    let sizes = seq![at, rest];
    let none: Option<Seq<i64>> = None;
    // the ranges are those of a split in two
    let first = ranges(t.shape, seq![0i64], seq![at], ax, none, 1);
    let second = ranges(t.shape, seq![at], seq![dim], ax, none, 1);
    reveal_with_fuel(ranges, 2);
    assert(entry_axis(ax, t.shape.len() as int, 0) == axis);
    assert(range_len(0, at as int, 1, dim as int) == at);
    assert(range_len(at as int, dim as int, 1, dim as int) == rest);
    assert(range_start(0, 1, dim as int) == 0);
    assert(dim > 0 ==> range_start(at as int, 1, dim as int) == at);
    assert(dim == 0 ==> at == 0);
    let p = part_ranges(t.shape, axis, at, 0);
    let q = part_ranges(t.shape, axis, rest, at as int);
    assert(first.out =~= p.out && first.start =~= p.start && first.step =~= p.step);
    assert(second.out =~= q.out && second.start =~= q.start && second.step =~= q.step);
    reveal_with_fuel(split_start, 3);
    assert(split_start(sizes, 0) == 0 && split_start(sizes, 1) == at && split_start(sizes, 2)
        == dim);
    assert(fault(t) is None && size_of_code(t.dtype) > 0);
    law_split_succeeds(t, axis, sizes);
    let ps = parts_of(t, t.shape, axis, sizes, 2)->Some_0;
    lemma_parts(t, axis, sizes, 2, ps);
    assert(ps[0] == front && ps[1] == back);
    assert(ps =~= seq![front, back]);
    law_join_undoes_split(t, axis, sizes, ps);
}

// --- margins -------------------------------------------------------------------------------

/// Strings of one length stand at the multiples of it.
pub proof fn lemma_strung_element(n: int, f: spec_fn(int) -> Seq<u8>, es: int, i: int)
    requires
        0 <= i < n,
        0 <= es,
        forall|o: int| 0 <= o < n ==> (#[trigger] f(o)).len() == es,
    ensures
        strung(n, f).len() == n * es,
        element(strung(n, f), es, i) == f(i),
    decreases n,
{
    assert(n * es == (n - 1) * es + es) by (nonlinear_arith);
    assert(0 <= i * es && i * es + es <= n * es) by (nonlinear_arith)
        requires
            0 <= i < n,
            0 <= es,
    ;
    assert(f(n - 1).len() == es);
    if n == 1 {
        assert(strung(0, f) =~= Seq::empty());
        assert(element(strung(n, f), es, i) =~= f(i));
    } else if i < n - 1 {
        lemma_strung_element(n - 1, f, es, i);
        assert(i * es + es <= (n - 1) * es) by (nonlinear_arith)
            requires
                0 <= i < n - 1,
                0 <= es,
        ;
        assert(element(strung(n, f), es, i) =~= element(strung(n - 1, f), es, i));
    } else {
        lemma_strung_element(n - 1, f, es, 0);
        assert(element(strung(n, f), es, i) =~= f(i));
    }
}

/// Elements taken in order are the leading ones.
proof fn lemma_picked_in_order(
    data: Seq<u8>,
    whole: Seq<u8>,
    es: int,
    n: int,
    src: spec_fn(int) -> int,
)
    requires
        0 <= n,
        0 <= es,
        n * es <= whole.len(),
        forall|i: int|
            0 <= i < n ==> element(data, es, #[trigger] src(i)) == element(whole, es, i),
    ensures
        picked(data, es, n, src) == whole.take(n * es),
    decreases n,
{
    if n > 0 {
        assert(n * es == (n - 1) * es + es && 0 <= (n - 1) * es) by (nonlinear_arith)
            requires
                0 < n,
                0 <= es,
        ;
        lemma_picked_in_order(data, whole, es, n - 1, src);
        assert(element(data, es, src(n - 1)) == element(whole, es, n - 1));
        assert(whole.take((n - 1) * es) + element(whole, es, n - 1) =~= whole.take(n * es));
    } else {
        assert(n * es == 0) by (nonlinear_arith)
            requires
                n == 0,
        ;
        assert(whole.take(0) =~= Seq::empty());
    }
}

/// Whether the margins cut nothing off and the dimensions can be held.
pub open spec fn grows(shape: Seq<i64>, begins: Seq<i64>, ends: Seq<i64>) -> bool {
    &&& begins.len() == shape.len()
    &&& ends.len() == shape.len()
    &&& forall|d: int| 0 <= d < shape.len() ==> #[trigger] begins[d] >= 0
    &&& forall|d: int| 0 <= d < shape.len() ==> #[trigger] ends[d] >= 0
    &&& forall|d: int|
        0 <= d < shape.len() ==> #[trigger] shape[d] <= i64::MAX - begins[d] - ends[d]
}

/// The element that a slice takes from within the margin is the one that stood there before.
proof fn lemma_margin_element(
    t: TensorView,
    begins: Seq<i64>,
    ends: Seq<i64>,
    cval: Seq<u8>,
    p: TensorView,
    o: int,
)
    requires
        grows(t.shape, begins, ends),
        pad_of(t, begins, ends, cval) == Ok::<TensorView, Kind>(p),
        fault(p) is None,
        positive(t.shape),
        0 <= o < product(t.shape),
    ensures
        ({
            let r = Ranges { out: t.shape, start: begins, step: unit_steps(t.shape) };
            let es = size_of_code(t.dtype) as int;
            element(p.data, es, slice_source(p.shape, r, o)) == element(t.data, es, o)
        }),
{
    let shape = t.shape;
    let out = padded_shape(shape, begins, ends);
    let rank = shape.len() as int;
    let es = size_of_code(t.dtype) as int;
    let r = Ranges { out: shape, start: begins, step: unit_steps(shape) };
    let x = |d: int| r.start[d] + coord(r.out, o, d) * r.step[d];
    let j = place(out, x);
    lemma_count(out);
    lemma_sound_len(t);
    lemma_sound_len(p);
    lemma_count(shape);
    lemma_whole(shape);
    lemma_whole(out);
    assert forall|d: int| 0 <= d < rank implies #[trigger] out[d] > 0 && out[d] == shape[d]
        + begins[d] + ends[d] by {
        assert(shape[d] > 0);
    }
    assert forall|d: int| 0 <= d < rank implies 0 <= #[trigger] x(d) < out[d] && x(d) == begins[d]
        + coord(shape, o, d) by {
        lemma_coord_bound(shape, o, d);
        assert(out[d] > 0);
        assert(coord(shape, o, d) * r.step[d] == coord(shape, o, d)) by (nonlinear_arith)
            requires
                r.step[d] == 1,
        ;
    }
    lemma_place_bound(out, x, rank);
    let n = product(out);
    assert(0 <= j < n) by {
        assert(suffix(out, rank) == 1);
    }
    // the bytes at that place
    let f = |i: int| padded_at(t, out, begins, cval, i);
    assert forall|i: int| 0 <= i < n implies (#[trigger] f(i)).len() == es by {
        if from_inside(shape, out, begins, i) {
            let g = |d: int| coord(out, i, d) - begins[d];
            assert forall|d: int| 0 <= d < rank implies 0 <= #[trigger] g(d) < shape[d] by {
                assert(0 <= coord(out, i, d) - begins[d] < shape[d]);
            }
            lemma_place_bound(shape, g, rank);
            assert(suffix(shape, rank) == 1);
            let k = pad_source(shape, out, begins, i);
            let m = product(shape);
            assert(0 <= k * es && k * es + es <= m * es) by (nonlinear_arith)
                requires
                    0 <= k < m,
                    0 <= es,
            ;
        } else {
            assert(fill_value(cval, es).len() == es);
        }
    }
    lemma_strung_element(n, f, es, j);
    // are those at `o`
    assert forall|d: int| 0 <= d < rank implies #[trigger] coord(out, j, d) == x(d) by {
        law_coords_of_place(out, x, d);
    }
    assert(from_inside(shape, out, begins, j)) by {
        assert forall|d: int| 0 <= d < rank implies 0 <= #[trigger] coord(out, j, d) - begins[d]
            < shape[d] by {
            lemma_coord_bound(shape, o, d);
            assert(x(d) == begins[d] + coord(shape, o, d));
        }
    }
    let g = |d: int| coord(out, j, d) - begins[d];
    let h = |d: int| coord(shape, o, d);
    let w = |k: int| suffix(shape, k + 1);
    assert forall|d: int| 0 <= d < rank implies (#[trigger] g(d)) * w(d) == h(d) * w(d) by {
        assert(coord(out, j, d) == x(d));
    }
    lemma_weighted_same(g, w, h, w, rank);
    law_place_of_coords(shape, o);
}

/// Cutting off a margin gives back the tensor that it was put round.
pub proof fn law_slice_undoes_pad(
    t: TensorView,
    begins: Seq<i64>,
    ends: Seq<i64>,
    cval: Seq<u8>,
    padded: TensorView,
)
    requires
        grows(t.shape, begins, ends),
        pad_of(t, begins, ends, cval) == Ok::<TensorView, Kind>(padded),
        fault(padded) is None,
    ensures
        slice_of(
            padded,
            (Ranges { out: t.shape, start: begins, step: unit_steps(t.shape) }),
        ) == Ok::<TensorView, Kind>(t),
{
    let r = Ranges { out: t.shape, start: begins, step: unit_steps(t.shape) };
    let es = size_of_code(t.dtype) as int;
    let src = |o: int| slice_source(padded.shape, r, o);
    let n = product(t.shape);
    lemma_sound_len(t);
    lemma_count(t.shape);
    if n > 0 {
        lemma_nonempty(t.shape);
        assert forall|i: int| 0 <= i < n implies element(padded.data, es, #[trigger] src(i))
            == element(t.data, es, i) by {
            lemma_margin_element(t, begins, ends, cval, padded, i);
        }
    }
    lemma_picked_in_order(padded.data, t.data, es, n, src);
    assert(t.data.take(t.data.len() as int) =~= t.data);
}

/// Margins of the opposite sign.
pub open spec fn opposite(margins: Seq<i64>) -> Seq<i64> {
    margins.map_values(|m: i64| (-m) as i64)
}

/// Strings of one length that are the elements of `whole` in order are its start.
proof fn lemma_strung_in_order(n: int, f: spec_fn(int) -> Seq<u8>, whole: Seq<u8>, es: int)
    requires
        0 <= n,
        0 <= es,
        n * es <= whole.len(),
        forall|i: int| 0 <= i < n ==> #[trigger] f(i) == element(whole, es, i),
    ensures
        strung(n, f) == whole.take(n * es),
    decreases n,
{
    if n > 0 {
        assert(n * es == (n - 1) * es + es && 0 <= (n - 1) * es) by (nonlinear_arith)
            requires
                0 < n,
                0 <= es,
        ;
        lemma_strung_in_order(n - 1, f, whole, es);
        assert(f(n - 1) == element(whole, es, n - 1));
        assert(whole.take((n - 1) * es) + element(whole, es, n - 1) =~= whole.take(n * es));
    } else {
        assert(n * es == 0) by (nonlinear_arith)
            requires
                n == 0,
        ;
        assert(whole.take(0) =~= Seq::empty());
    }
}

/// **Margins of the opposite sign undo a padding**: they cut off what was put round the tensor.
pub proof fn law_opposite_pads_undo(
    t: TensorView,
    begins: Seq<i64>,
    ends: Seq<i64>,
    cval: Seq<u8>,
    padded: TensorView,
    any: Seq<u8>,
)
    requires
        grows(t.shape, begins, ends),
        pad_of(t, begins, ends, cval) == Ok::<TensorView, Kind>(padded),
        fault(padded) is None,
    ensures
        pad_of(padded, opposite(begins), opposite(ends), any) == Ok::<TensorView, Kind>(t),
{
    let (nb, ne) = (opposite(begins), opposite(ends));
    let es = size_of_code(t.dtype) as int;
    let out = padded_shape(padded.shape, nb, ne);
    let n = product(t.shape);
    let rank = t.shape.len() as int;
    lemma_sound_len(t);
    lemma_count(t.shape);
    assert forall|d: int| 0 <= d < rank implies out[d] == t.shape[d] by {
        assert(begins[d] >= 0 && ends[d] >= 0);
            assert(t.shape[d] <= i64::MAX - begins[d] - ends[d]);
    }
    assert(out =~= t.shape);
    let f = |o: int| padded_at(padded, out, nb, any, o);
    if n > 0 {
        lemma_nonempty(t.shape);
    }
    assert forall|o: int| 0 <= o < n implies #[trigger] f(o) == element(t.data, es, o) by {
        lemma_margin_element(t, begins, ends, cval, padded, o);
        let r = Ranges { out: t.shape, start: begins, step: unit_steps(t.shape) };
        let x = |d: int| r.start[d] + coord(r.out, o, d) * r.step[d];
        let y = |d: int| coord(out, o, d) - nb[d];
        let w = |k: int| suffix(padded.shape, k + 1);
        assert forall|d: int| 0 <= d < rank implies 0 <= #[trigger] coord(out, o, d) - nb[d]
            < padded.shape[d] && (#[trigger] x(d)) * w(d) == y(d) * w(d) by {
            assert(begins[d] >= 0 && ends[d] >= 0);
            assert(t.shape[d] <= i64::MAX - begins[d] - ends[d]);
            lemma_coord_bound(t.shape, o, d);
            assert(coord(t.shape, o, d) * r.step[d] == coord(t.shape, o, d)) by (nonlinear_arith)
                requires
                    r.step[d] == 1,
            ;
        }
        assert(from_inside(padded.shape, out, nb, o));
        lemma_weighted_same(x, w, y, w, rank);
        assert(pad_source(padded.shape, out, nb, o) == slice_source(padded.shape, r, o));
    }
    lemma_strung_in_order(n, f, t.data, es);
    assert(t.data.take(t.data.len() as int) =~= t.data);
}

} // verus!
