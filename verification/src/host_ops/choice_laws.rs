//! What cutting, padding, choosing and writing on the host give.

use crate::bytes::element;
use crate::error::Kind;
use crate::graph::{size_of_code, TensorView};
use crate::host_ops::arith::{
    divisor_at, int_mod_at, law_floored_remainder, law_quotient_remainder, magnitude,
};
use crate::host_ops::fill::{
    from_inside, lemma_element_within, pad_of, pad_source, padded_at, padded_shape,
};
use crate::host_ops::join::{row_place, scatter_nd_of, scattered};
use crate::host_ops::lanes::lane_place;
use crate::host_ops::scan::{chosen_before, picks_first};
use crate::host_ops::select::{entry_axis, entry_ok, entry_step, range_len, range_start, ranges};
use crate::host_ops::{elements, ints_of, lemma_sound_len};
use crate::interp::cut_laws::lemma_strung_element;
use crate::shape::{
    coord, count_of, lemma_count, lemma_place_bound, lemma_whole, place, positive, product,
    weighted,
};
use vstd::prelude::*;

verus! {

// --- ranges -----------------------------------------------------------------------------

/// **Each entry of a slice is about its own axis**: the range along it is that of the entry, unless
/// a later one is about the same axis.
pub proof fn law_slice_entry(
    shape: Seq<i64>,
    starts: Seq<i64>,
    ends: Seq<i64>,
    axes: Option<Seq<i64>>,
    steps: Option<Seq<i64>>,
    n: int,
    i: int,
)
    requires
        0 <= i < n,
        forall|j: int| 0 <= j < n ==> #[trigger] entry_ok(shape, axes, steps, j),
        forall|j: int|
            i < j < n ==> #[trigger] entry_axis(axes, shape.len() as int, j) != entry_axis(
                axes,
                shape.len() as int,
                i,
            ),
    ensures
        ({
            let a = entry_axis(axes, shape.len() as int, i);
            let step = entry_step(steps, i);
            let r = ranges(shape, starts, ends, axes, steps, n);
            &&& r.start[a] == range_start(starts[i] as int, step, shape[a] as int) as i64
            &&& r.out[a] == range_len(starts[i] as int, ends[i] as int, step, shape[a] as int) as i64
            &&& r.step[a] == step
        }),
    decreases n,
{
    lemma_ranges_len(shape, starts, ends, axes, steps, n - 1);
    assert(entry_ok(shape, axes, steps, i));
    assert(entry_ok(shape, axes, steps, n - 1));
    if i < n - 1 {
        law_slice_entry(shape, starts, ends, axes, steps, n - 1, i);
        assert(entry_axis(axes, shape.len() as int, n - 1) != entry_axis(
            axes,
            shape.len() as int,
            i,
        ));
    }
}

/// **Dimensions that no entry is about are taken whole.**
pub proof fn law_slice_rest(
    shape: Seq<i64>,
    starts: Seq<i64>,
    ends: Seq<i64>,
    axes: Option<Seq<i64>>,
    steps: Option<Seq<i64>>,
    n: int,
    d: int,
)
    requires
        0 <= n,
        0 <= d < shape.len(),
        forall|j: int| 0 <= j < n ==> #[trigger] entry_ok(shape, axes, steps, j),
        forall|j: int| 0 <= j < n ==> #[trigger] entry_axis(axes, shape.len() as int, j) != d,
    ensures
        ({
            let r = ranges(shape, starts, ends, axes, steps, n);
            r.start[d] == 0 && r.out[d] == shape[d] && r.step[d] == 1
        }),
    decreases n,
{
    if n > 0 {
        lemma_ranges_len(shape, starts, ends, axes, steps, n - 1);
        law_slice_rest(shape, starts, ends, axes, steps, n - 1, d);
        assert(entry_axis(axes, shape.len() as int, n - 1) != d);
        assert(entry_ok(shape, axes, steps, n - 1));
    }
}

proof fn lemma_ranges_len(
    shape: Seq<i64>,
    starts: Seq<i64>,
    ends: Seq<i64>,
    axes: Option<Seq<i64>>,
    steps: Option<Seq<i64>>,
    n: int,
)
    requires
        forall|j: int| 0 <= j < n ==> #[trigger] entry_ok(shape, axes, steps, j),
    ensures
        ranges(shape, starts, ends, axes, steps, n).out.len() == shape.len(),
        ranges(shape, starts, ends, axes, steps, n).start.len() == shape.len(),
        ranges(shape, starts, ends, axes, steps, n).step.len() == shape.len(),
    decreases n,
{
    if n > 0 {
        lemma_ranges_len(shape, starts, ends, axes, steps, n - 1);
        assert(entry_ok(shape, axes, steps, n - 1));
    }
}

// --- margins ----------------------------------------------------------------------------

/// **A padded tensor holds the tensor and the value round it**: an element whose coordinates, less
/// what is added at the beginning, lie within the tensor is the element there, and every other one
/// is the value, or zero where that is of another size.
pub proof fn law_pad_element(
    t: TensorView,
    begins: Seq<i64>,
    ends: Seq<i64>,
    value: Seq<u8>,
    u: TensorView,
    o: int,
)
    requires
        pad_of(t, begins, ends, value) == Ok::<TensorView, Kind>(u),
        0 <= o < product(u.shape),
        positive(t.shape),
    ensures
        u.dtype == t.dtype,
        u.shape.len() == t.shape.len(),
        ({
            let es = size_of_code(t.dtype) as int;
            let inside = forall|d: int|
                0 <= d < t.shape.len() ==> begins[d] <= #[trigger] coord(u.shape, o, d) < begins[d]
                    + t.shape[d];
            &&& inside ==> element(u.data, es, o) == element(
                t.data,
                es,
                place(t.shape, |d: int| coord(u.shape, o, d) - begins[d]),
            )
            &&& !inside && value.len() == es ==> element(u.data, es, o) == value
            &&& !inside && value.len() != es ==> forall|b: int|
                0 <= b < es ==> #[trigger] element(u.data, es, o)[b] == 0
        }),
{
    let es = size_of_code(t.dtype) as int;
    let out = u.shape;
    let n = count_of(out)->Some_0;
    lemma_count(out);
    lemma_sound_len(t);
    lemma_count(t.shape);
    lemma_whole(t.shape);
    let f = |i: int| padded_at(t, out, begins, value, i);
    assert forall|i: int| 0 <= i < n implies (#[trigger] f(i)).len() == es by {
        if from_inside(t.shape, out, begins, i) {
            let x = |d: int| coord(out, i, d) - begins[d];
            assert forall|d: int| 0 <= d < t.shape.len() implies 0 <= #[trigger] x(d)
                < t.shape[d] by {
                assert(0 <= coord(out, i, d) - begins[d] < t.shape[d]);
            }
            lemma_place_bound(t.shape, x, t.shape.len() as int);
            lemma_element_within(pad_source(t.shape, out, begins, i), elements(t), es);
        }
    }
    lemma_strung_element(n, f, es, o);
    let inside = forall|d: int|
        0 <= d < t.shape.len() ==> begins[d] <= #[trigger] coord(out, o, d) < begins[d] + t.shape[d];
    assert(from_inside(t.shape, out, begins, o) == inside) by {
        if inside {
            assert forall|d: int| 0 <= d < t.shape.len() implies 0 <= #[trigger] coord(out, o, d)
                - begins[d] < t.shape[d] by {}
        }
        if from_inside(t.shape, out, begins, o) {
            assert forall|d: int| 0 <= d < t.shape.len() implies begins[d] <= #[trigger] coord(
                out,
                o,
                d,
            ) < begins[d] + t.shape[d] by {
                assert(0 <= coord(out, o, d) - begins[d] < t.shape[d]);
            }
        }
    }
}

/// **A padded dimension is as much larger as is added to it.**
pub proof fn law_padded_shape(shape: Seq<i64>, begins: Seq<i64>, ends: Seq<i64>, d: int)
    requires
        0 <= d < shape.len(),
        i64::MIN <= shape[d] + begins[d] + ends[d] <= i64::MAX,
    ensures
        padded_shape(shape, begins, ends)[d] == shape[d] + begins[d] + ends[d],
        padded_shape(shape, begins, ends).len() == shape.len(),
{
}

// --- selections -------------------------------------------------------------------------

/// **The first of a lane come in order**: none that comes later is larger, or smaller where the
/// smallest are asked for; none that is left out would have come before one that is taken; and of
/// equal ones the first comes first.
pub proof fn law_picks_are_in_order(
    v: Seq<i64>,
    c: int,
    inner: int,
    r: int,
    largest: bool,
    picks: Seq<int>,
    i: int,
    j: int,
    b: int,
)
    requires
        picks_first(v, c, inner, r, largest, picks),
        0 <= i < j < picks.len(),
        0 <= b < c,
        !picks.contains(b),
    ensures
        ({
            let x = v[lane_place(c, inner, r, picks[i])];
            let y = v[lane_place(c, inner, r, picks[j])];
            let z = v[lane_place(c, inner, r, b)];
            &&& largest ==> x >= y && y >= z
            &&& !largest ==> x <= y && y <= z
            &&& x == y ==> picks[i] < picks[j]
            &&& y == z ==> picks[j] < b
            &&& picks[i] != picks[j]
            &&& 0 <= picks[i] < c
        }),
{
    assert(chosen_before(v, c, inner, r, largest, picks[i], picks[j]));
    assert(chosen_before(v, c, inner, r, largest, picks[j], b));
}

// --- remainders -------------------------------------------------------------------------

/// **A remainder is what is left of a division**: smaller than the divisor, and with the sign of the
/// dividend where it is truncated, otherwise with that of the divisor.
pub proof fn law_int_mod(
    av: Seq<i64>,
    bv: Seq<i64>,
    a: TensorView,
    b: TensorView,
    fmod: bool,
    i: int,
)
    requires
        divisor_at(bv, a, b, i) != 0,
    ensures
        ({
            let out = crate::shape::joint_shape(a.shape, b.shape);
            let x = av[crate::shape::source(a.shape, out, i)] as int;
            let y = bv[crate::shape::source(b.shape, out, i)] as int;
            let z = int_mod_at(av, bv, a, b, fmod, i);
            &&& magnitude(z) < magnitude(y)
            &&& fmod ==> z == 0 || (z < 0) == (x < 0)
            &&& !fmod ==> z == 0 || (z < 0) == (y < 0)
            &&& exists|k: int| x == #[trigger] (k * y) + z
        }),
{
    let out = crate::shape::joint_shape(a.shape, b.shape);
    let x = av[crate::shape::source(a.shape, out, i)] as int;
    let y = bv[crate::shape::source(b.shape, out, i)] as int;
    law_quotient_remainder(x, y);
    law_floored_remainder(x, y);
    if fmod {
        let q = crate::host_ops::arith::quotient(x, y);
        assert(x == q * y + int_mod_at(av, bv, a, b, fmod, i));
    }
}

// --- writing ----------------------------------------------------------------------------

/// **A row of indices names the slice at its coordinates**: each index, counted from either end,
/// times the elements behind its dimension.
pub proof fn law_row_place(idx: Seq<i64>, shape: Seq<i64>, k: int, r: int, d: int)
    requires
        0 <= d <= k <= shape.len(),
    ensures
        row_place(idx, shape, k, r, d) == weighted(
            |i: int|
                if idx[r * k + i] < 0 {
                    idx[r * k + i] + shape[i]
                } else {
                    idx[r * k + i] as int
                },
            |i: int| product(shape.skip(i + 1)),
            d,
        ),
    decreases d,
{
    if d > 0 {
        law_row_place(idx, shape, k, r, d - 1);
        crate::shape_laws::law_suffix_is_product(shape, d);
    }
}

/// **Scattering writes the update of a row where the row says, and nothing else**: after row `r` the
/// slice that it names holds its update, and every byte outside that slice is what it was.
pub proof fn law_scattered_row(
    data: Seq<u8>,
    updates: Seq<u8>,
    idx: Seq<i64>,
    shape: Seq<i64>,
    k: int,
    es: int,
    width: int,
    r: int,
    b: int,
)
    requires
        0 <= r,
        0 <= width,
        0 <= row_place(idx, shape, k, r, k) * es,
        row_place(idx, shape, k, r, k) * es + width <= scattered(
            data,
            updates,
            idx,
            shape,
            k,
            es,
            width,
            r,
        ).len(),
        0 <= r * width,
        r * width + width <= updates.len(),
        0 <= b < scattered(data, updates, idx, shape, k, es, width, r).len(),
    ensures
        ({
            let before = scattered(data, updates, idx, shape, k, es, width, r);
            let after = scattered(data, updates, idx, shape, k, es, width, r + 1);
            let at = row_place(idx, shape, k, r, k) * es;
            &&& after.len() == before.len()
            &&& at <= b < at + width ==> after[b] == updates[r * width + (b - at)]
            &&& !(at <= b < at + width) ==> after[b] == before[b]
        }),
{
}

/// Before any row is written the data is as it was.
pub proof fn law_nothing_scattered(
    data: Seq<u8>,
    updates: Seq<u8>,
    idx: Seq<i64>,
    shape: Seq<i64>,
    k: int,
    es: int,
    width: int,
)
    ensures
        scattered(data, updates, idx, shape, k, es, width, 0) == data,
{
}

/// **All rows are written**: a scattering gives the data with as many rows written as the indices
/// have, each of the size of a slice, in its own type and shape.
pub proof fn law_scatter_writes_all(data: TensorView, indices: TensorView, updates: TensorView, u: TensorView)
    requires
        scatter_nd_of(data, indices, updates) == Ok::<TensorView, Kind>(u),
        indices.shape.last() > 0,
    ensures
        ({
            let k = indices.shape.last() as int;
            let es = size_of_code(data.dtype) as int;
            let idx = ints_of(indices)->Ok_0;
            let slice = product(data.shape.skip(k));
            &&& k <= data.shape.len()
            &&& u.dtype == data.dtype
            &&& u.shape == data.shape
            &&& updates.dtype == data.dtype
            &&& elements(updates) == idx.len() as int / k * slice
            &&& u.data == scattered(
                data.data,
                updates.data,
                idx,
                data.shape,
                k,
                es,
                slice * es,
                idx.len() as int / k,
            )
        }),
{
    let k = indices.shape.last() as int;
    crate::shape_laws::law_suffix_is_product(data.shape, k);
}

} // verus!
