//! Operations that take elements from tensors by condition, range or index.

use crate::bytes::{element, picked, push_element, strung};
use crate::error::{invalid_tensor, Kind, Result};
use crate::graph::{elem_size, size_of_code, TensorView};
use crate::host_ops::fill::{
    aligned_stride, bcast_strides, coord_along, joint_place, lemma_dim_bound, lemma_element_within,
    lemma_fit_strides, lemma_next_place,
};
use crate::host_ops::scan::front_axis;
use crate::host_ops::{copy_dims, fault, gives, ints_of, lemma_sound_len, HostTensor, Outcome};
use crate::shape::{
    broadcast, coord, count_of, element_count, fits_into, joins, joint_shape, lemma_coord_bound,
    lemma_count, lemma_joint_fits, lemma_nonempty, lemma_place_bound, lemma_suffix_positive,
    lemma_whole, place, positive, product, source, strides_of, suffix, weighted,
};
use vstd::prelude::*;

verus! {

// --- choosing by condition --------------------------------------------------------------

/// The bytes that the condition chooses for place `o` of the result.
pub open spec fn chosen_at(
    cv: Seq<i64>,
    cond: TensorView,
    x: TensorView,
    y: TensorView,
    out: Seq<i64>,
    o: int,
) -> Seq<u8> {
    let es = size_of_code(x.dtype) as int;
    if cv[source(cond.shape, out, o)] != 0 {
        element(x.data, es, source(x.shape, out, o))
    } else {
        element(y.data, es, source(y.shape, out, o))
    }
}

/// The elements of `x` where the condition holds, else those of `y`.
pub open spec fn where_of(
    cond: TensorView,
    x: TensorView,
    y: TensorView,
    out: Seq<i64>,
) -> Outcome<TensorView> {
    let xy = joint_shape(x.shape, y.shape);
    if let Some(k) = fault(cond) {
        Err(k)
    } else if let Some(k) = fault(x) {
        Err(k)
    } else if let Some(k) = fault(y) {
        Err(k)
    } else if !joins(x.shape, y.shape) || !joins(cond.shape, xy) {
        Err(Kind::Shape)
    } else if joint_shape(cond.shape, xy) != out || size_of_code(x.dtype) == 0 || x.dtype
        != y.dtype {
        Err(Kind::Tensor)
    } else {
        match ints_of(cond) {
            Err(k) => Err(k),
            Ok(cv) => match count_of(out) {
                None => Err(Kind::Shape),
                Some(n) => Ok(
                    TensorView {
                        dtype: x.dtype,
                        shape: out,
                        data: strung(n, |o: int| chosen_at(cv, cond, x, y, out, o)),
                    },
                ),
            },
        }
    }
}

proof fn lemma_fits_through(a: Seq<i64>, b: Seq<i64>, c: Seq<i64>)
    requires
        fits_into(a, b),
        fits_into(b, c),
    ensures
        fits_into(a, c),
{
    assert forall|k: int| 0 <= k < a.len() implies #[trigger] a[k] == 1 || a[k] == c[k + (c.len()
        - a.len())] by {
        let j = k + (b.len() - a.len());
        assert(b[j] == 1 || b[j] == c[j + (c.len() - b.len())]);
    }
}

/// Whether two lists of dimensions are the same.
pub fn same_dims(a: &[i64], b: &[i64]) -> (r: bool)
    ensures
        r == (a@ == b@),
{
    if a.len() != b.len() {
        return false;
    }
    let n: usize = a.len();
    let mut i: usize = 0;
    while i < n
        invariant
            n == a@.len(),
            n == b@.len(),
            i <= n,
            forall|k: int| 0 <= k < i ==> a@[k] == b@[k],
        decreases n - i,
    {
        if a[i] != b[i] {
            assert(a@[i as int] != b@[i as int]);
            return false;
        }
        i += 1;
    }
    assert(a@ =~= b@);
    true
}

/// Takes the elements of `x` where the condition holds, else those of `y`, with broadcasting.
/// `out_shape` is the shape that all three broadcast to.
pub fn where_op(cond: &HostTensor, x: &HostTensor, y: &HostTensor, out_shape: &[i64]) -> (r: Result<
    HostTensor,
>)
    ensures
        gives(r, where_of(cond@, x@, y@, out_shape@)),
{
    match cond.validate() {
        Ok(_) => {},
        Err(e) => {
            return Err(e);
        },
    }
    match x.validate() {
        Ok(_) => {},
        Err(e) => {
            return Err(e);
        },
    }
    match y.validate() {
        Ok(_) => {},
        Err(e) => {
            return Err(e);
        },
    }
    let xy = match broadcast(x.shape.as_slice(), y.shape.as_slice()) {
        Ok(bc) => bc.out_shape,
        Err(e) => {
            return Err(e);
        },
    };
    let expected = match broadcast(cond.shape.as_slice(), xy.as_slice()) {
        Ok(bc) => bc.out_shape,
        Err(e) => {
            return Err(e);
        },
    };
    if !same_dims(expected.as_slice(), out_shape) {
        return Err(invalid_tensor("output shape does not match the operands"));
    }
    let es: usize = elem_size(x.dtype);
    if es == 0 {
        return Err(invalid_tensor("type without size"));
    }
    if x.dtype != y.dtype {
        return Err(invalid_tensor("operands of different types"));
    }
    let cv = match cond.to_i64() {
        Ok(v) => v,
        Err(e) => {
            return Err(e);
        },
    };
    let n: usize = match element_count(out_shape) {
        Ok(n) => n,
        Err(e) => {
            return Err(e);
        },
    };
    let ghost out = out_shape@;
    let ghost f = |o: int| chosen_at(cv@, cond@, x@, y@, out, o);
    let mut data: Vec<u8> = Vec::new();
    if n > 0 {
        proof {
            lemma_sound_len(cond@);
            lemma_sound_len(x@);
            lemma_sound_len(y@);
            lemma_count(cond.shape@);
            lemma_count(x.shape@);
            lemma_count(y.shape@);
            lemma_joint_fits(x.shape@, y.shape@);
            lemma_joint_fits(cond.shape@, xy@);
            lemma_fits_through(x.shape@, xy@, out);
            lemma_fits_through(y.shape@, xy@, out);
            lemma_nonempty(out);
            lemma_count(out);
            lemma_fit_strides(cond.shape@, out);
            lemma_fit_strides(x.shape@, out);
            lemma_fit_strides(y.shape@, out);
        }
        let out_strides = strides_of(out_shape);
        let cs = bcast_strides(cond.shape.as_slice(), out_shape);
        let xs = bcast_strides(x.shape.as_slice(), out_shape);
        let ys = bcast_strides(y.shape.as_slice(), out_shape);
        let mut o: usize = 0;
        while o < n
            invariant
                o <= n,
                out == out_shape@,
                positive(out),
                positive(cond.shape@),
                positive(x.shape@),
                positive(y.shape@),
                fits_into(cond.shape@, out),
                fits_into(x.shape@, out),
                fits_into(y.shape@, out),
                product(cond.shape@) <= usize::MAX,
                product(x.shape@) <= usize::MAX,
                product(y.shape@) <= usize::MAX,
                cv@.len() == product(cond.shape@),
                es == size_of_code(x.dtype),
                x.data@.len() == product(x.shape@) * es,
                y.data@.len() == product(y.shape@) * es,
                out_strides@.len() == out.len(),
                cs@.len() == out.len(),
                xs@.len() == out.len(),
                ys@.len() == out.len(),
                forall|k: int|
                    0 <= k < out.len() ==> #[trigger] out_strides@[k] == suffix(out, k + 1),
                forall|k: int|
                    0 <= k < out.len() ==> #[trigger] cs@[k] == aligned_stride(cond.shape@, out, k),
                forall|k: int|
                    0 <= k < out.len() ==> #[trigger] xs@[k] == aligned_stride(x.shape@, out, k),
                forall|k: int|
                    0 <= k < out.len() ==> #[trigger] ys@[k] == aligned_stride(y.shape@, out, k),
                f == (|o: int| chosen_at(cv@, cond@, x@, y@, out, o)),
                data@ == strung(o as int, f),
            decreases n - o,
        {
            let ghost was = data@;
            let ci: usize = joint_place(out_shape, &out_strides, &cs, o, Ghost(cond.shape@));
            if cv[ci] != 0 {
                let s: usize = joint_place(out_shape, &out_strides, &xs, o, Ghost(x.shape@));
                proof {
                    lemma_element_within(s as int, product(x.shape@), es as int);
                }
                push_element(&mut data, x.data.as_slice(), s, es);
            } else {
                let s: usize = joint_place(out_shape, &out_strides, &ys, o, Ghost(y.shape@));
                proof {
                    lemma_element_within(s as int, product(y.shape@), es as int);
                }
                push_element(&mut data, y.data.as_slice(), s, es);
            }
            assert(data@ == was + f(o as int));
            o += 1;
        }
    }
    Ok(HostTensor { dtype: x.dtype, shape: copy_dims(out_shape), data })
}

// --- ranges -----------------------------------------------------------------------------

/// Start, step and length of a range along each dimension.
#[verifier::ext_equal]
pub struct Ranges {
    pub out: Seq<i64>,
    pub start: Seq<i64>,
    pub step: Seq<i64>,
}

/// `v` held between `lo` and `hi`.
pub open spec fn clamped(v: int, lo: int, hi: int) -> int {
    if v < lo {
        lo
    } else if v > hi {
        hi
    } else {
        v
    }
}

/// A position counted from either end, counted from the front.
pub open spec fn from_front(v: int, dim: int) -> int {
    if v < 0 {
        v + dim
    } else {
        v
    }
}

/// Where a range along a dimension of `dim` elements starts; an empty dimension has only one
/// place to start.
pub open spec fn range_start(start: int, step: int, dim: int) -> int {
    if dim == 0 {
        0
    } else if step > 0 {
        clamped(from_front(start, dim), 0, dim)
    } else {
        clamped(from_front(start, dim), 0, dim - 1)
    }
}

/// Where it ends, that element left out.
pub open spec fn range_end(end: int, step: int, dim: int) -> int {
    if step > 0 {
        clamped(from_front(end, dim), 0, dim)
    } else {
        clamped(from_front(end, dim), -1, dim - 1)
    }
}

/// How many elements a range holds.
pub open spec fn range_len(start: int, end: int, step: int, dim: int) -> int {
    let s = range_start(start, step, dim);
    let e = range_end(end, step, dim);
    if dim == 0 {
        0
    } else if step > 0 {
        if e > s {
            (e - s - 1) / step + 1
        } else {
            0
        }
    } else if s > e {
        (s - e - 1) / (-step) + 1
    } else {
        0
    }
}

/// The axis that entry `i` is about.
pub open spec fn entry_axis(axes: Option<Seq<i64>>, rank: int, i: int) -> int {
    front_axis(
        match axes {
            Some(a) => a[i] as int,
            None => i,
        },
        rank,
    )
}

/// The step of entry `i`.
pub open spec fn entry_step(steps: Option<Seq<i64>>, i: int) -> int {
    match steps {
        Some(s) => s[i] as int,
        None => 1,
    }
}

/// Whether entry `i` names an axis and a step.
pub open spec fn entry_ok(
    shape: Seq<i64>,
    axes: Option<Seq<i64>>,
    steps: Option<Seq<i64>>,
    i: int,
) -> bool {
    0 <= entry_axis(axes, shape.len() as int, i) < shape.len() && entry_step(steps, i) != 0
}

/// The ranges after the first `n` entries; dimensions that none names are taken whole.
pub open spec fn ranges(
    shape: Seq<i64>,
    starts: Seq<i64>,
    ends: Seq<i64>,
    axes: Option<Seq<i64>>,
    steps: Option<Seq<i64>>,
    n: int,
) -> Ranges
    decreases n,
{
    if n <= 0 {
        Ranges {
            out: shape,
            start: Seq::new(shape.len(), |d: int| 0i64),
            step: Seq::new(shape.len(), |d: int| 1i64),
        }
    } else {
        let rest = ranges(shape, starts, ends, axes, steps, n - 1);
        let a = entry_axis(axes, shape.len() as int, n - 1);
        let step = entry_step(steps, n - 1);
        let dim = shape[a] as int;
        Ranges {
            out: rest.out.update(
                a,
                range_len(starts[n - 1] as int, ends[n - 1] as int, step, dim) as i64,
            ),
            start: rest.start.update(a, range_start(starts[n - 1] as int, step, dim) as i64),
            step: rest.step.update(a, step as i64),
        }
    }
}

/// Whether the optional lists are as long as the others.
pub open spec fn lists_match(
    starts: Seq<i64>,
    ends: Seq<i64>,
    axes: Option<Seq<i64>>,
    steps: Option<Seq<i64>>,
) -> bool {
    &&& starts.len() == ends.len()
    &&& axes matches Some(a) ==> a.len() == starts.len()
    &&& steps matches Some(s) ==> s.len() == starts.len()
}

/// The ranges that a slice asks for.
pub open spec fn slice_params_of(
    shape: Seq<i64>,
    starts: Seq<i64>,
    ends: Seq<i64>,
    axes: Option<Seq<i64>>,
    steps: Option<Seq<i64>>,
) -> Outcome<Ranges> {
    if count_of(shape) is None {
        Err(Kind::Shape)
    } else if !lists_match(starts, ends, axes, steps) || exists|i: int|
        0 <= i < starts.len() && !#[trigger] entry_ok(shape, axes, steps, i) {
        Err(Kind::Tensor)
    } else {
        Ok(ranges(shape, starts, ends, axes, steps, starts.len() as int))
    }
}

pub open spec fn optional(a: Option<&[i64]>) -> Option<Seq<i64>> {
    match a {
        Some(s) => Some(s@),
        None => None,
    }
}

fn clamp(v: i64, lo: i64, hi: i64) -> (r: i64)
    requires
        lo <= hi,
    ensures
        r == clamped(v as int, lo as int, hi as int),
{
    if v < lo {
        lo
    } else if v > hi {
        hi
    } else {
        v
    }
}

/// Start and length of one range.
fn resolve_range(start: i64, end: i64, step: i64, dim: i64) -> (r: (i64, i64))
    requires
        dim >= 0,
        step != 0,
    ensures
        r.0 == range_start(start as int, step as int, dim as int),
        r.1 == range_len(start as int, end as int, step as int, dim as int),
{
    if dim == 0 {
        return (0, 0);
    }
    let s0: i64 = if start < 0 {
        start + dim
    } else {
        start
    };
    let e0: i64 = if end < 0 {
        end + dim
    } else {
        end
    };
    if step > 0 {
        let s: i64 = clamp(s0, 0, dim);
        let e: i64 = clamp(e0, 0, dim);
        if e > s {
            let len: u64 = (e - s - 1) as u64 / (step as u64);
            proof {
                let a = (e - s - 1) as int;
                let b = step as int;
                assert(0 <= a / b <= a) by (nonlinear_arith)
                    requires
                        a >= 0,
                        b >= 1,
                ;
            }
            (s, len as i64 + 1)
        } else {
            (s, 0)
        }
    } else {
        let s: i64 = clamp(s0, 0, dim - 1);
        let e: i64 = clamp(e0, -1, dim - 1);
        if s > e {
            let stride: u64 = (-(step + 1)) as u64 + 1;
            let len: u64 = (s - e - 1) as u64 / stride;
            proof {
                let a = (s - e - 1) as int;
                let b = -step as int;
                assert(stride == b);
                assert(0 <= a / b <= a) by (nonlinear_arith)
                    requires
                        a >= 0,
                        b >= 1,
                ;
            }
            (s, len as i64 + 1)
        } else {
            (s, 0)
        }
    }
}

/// Resolves the parameters of a slice into shape, start and step for each dimension.
pub fn slice_params(
    shape: &[i64],
    starts: &[i64],
    ends: &[i64],
    axes: Option<&[i64]>,
    steps: Option<&[i64]>,
) -> (r: Result<(Vec<i64>, Vec<i64>, Vec<i64>)>)
    requires
        shape@.len() <= i64::MAX,
        starts@.len() <= i64::MAX,
    ensures
        match r {
            Ok((out, st, sp)) => slice_params_of(
                shape@,
                starts@,
                ends@,
                optional(axes),
                optional(steps),
            ) == Ok::<Ranges, Kind>(Ranges { out: out@, start: st@, step: sp@ }),
            Err(e) => slice_params_of(shape@, starts@, ends@, optional(axes), optional(steps))
                == Err::<Ranges, Kind>(e.kind()),
        },
{
    match element_count(shape) {
        Ok(_) => {},
        Err(e) => {
            return Err(e);
        },
    }
    proof {
        lemma_count(shape@);
    }
    let rank: usize = shape.len();
    let n: usize = starts.len();
    if n != ends.len() {
        return Err(invalid_tensor("starts and ends of different length"));
    }
    if let Some(a) = axes {
        if a.len() != n {
            return Err(invalid_tensor("axes and starts of different length"));
        }
    }
    if let Some(s) = steps {
        if s.len() != n {
            return Err(invalid_tensor("steps and starts of different length"));
        }
    }
    let ghost ax = optional(axes);
    let ghost sx = optional(steps);
    let mut st: Vec<i64> = vec![0i64; rank];
    let mut sp: Vec<i64> = vec![1i64; rank];
    let mut out: Vec<i64> = copy_dims(shape);
    let mut i: usize = 0;
    proof {
        let w = ranges(shape@, starts@, ends@, ax, sx, 0);
        assert(out@ =~= w.out && st@ =~= w.start && sp@ =~= w.step);
    }
    while i < n
        invariant
            i <= n,
            n == starts@.len(),
            n == ends@.len(),
            n <= i64::MAX,
            rank == shape@.len(),
            rank <= i64::MAX,
            ax == optional(axes),
            sx == optional(steps),
            lists_match(starts@, ends@, ax, sx),
            count_of(shape@) is Some,
            forall|k: int| 0 <= k < shape@.len() ==> #[trigger] shape@[k] >= 0,
            forall|j: int| 0 <= j < i ==> #[trigger] entry_ok(shape@, ax, sx, j),
            out@.len() == rank,
            st@.len() == rank,
            sp@.len() == rank,
            out@ == ranges(shape@, starts@, ends@, ax, sx, i as int).out,
            st@ == ranges(shape@, starts@, ends@, ax, sx, i as int).start,
            sp@ == ranges(shape@, starts@, ends@, ax, sx, i as int).step,
        decreases n - i,
    {
        let raw: i64 = match axes {
            Some(a) => a[i],
            None => i as i64,
        };
        let a: i64 = if raw < 0 {
            raw + rank as i64
        } else {
            raw
        };
        assert(a == entry_axis(ax, rank as int, i as int));
        if a < 0 || a >= rank as i64 {
            assert(!entry_ok(shape@, ax, sx, i as int));
            return Err(invalid_tensor("axis out of range"));
        }
        let step: i64 = match steps {
            Some(s) => s[i],
            None => 1,
        };
        assert(step == entry_step(sx, i as int));
        if step == 0 {
            assert(!entry_ok(shape@, ax, sx, i as int));
            return Err(invalid_tensor("step of zero"));
        }
        assert(entry_ok(shape@, ax, sx, i as int));
        let a: usize = a as usize;
        let (s, len) = resolve_range(starts[i], ends[i], step, shape[a]);
        st.set(a, s);
        sp.set(a, step);
        out.set(a, len);
        i += 1;
    }
    Ok((out, st, sp))
}

/// Every element of a range lies within the dimension.
proof fn lemma_range_within(start: int, end: int, step: int, dim: int, c: int)
    requires
        dim >= 0,
        step != 0,
        0 <= c < range_len(start, end, step, dim),
    ensures
        0 <= range_start(start, step, dim) + c * step < dim,
{
    let s = range_start(start, step, dim);
    let e = range_end(end, step, dim);
    if step > 0 {
        let a = e - s - 1;
        assert(0 <= c * step <= a) by (nonlinear_arith)
            requires
                0 <= c <= a / step,
                step > 0,
                a >= 0,
        ;
    } else {
        let a = s - e - 1;
        let b = -step;
        assert(0 <= c * b <= a) by (nonlinear_arith)
            requires
                0 <= c <= a / b,
                b > 0,
                a >= 0,
        ;
        assert(c * step == -(c * b)) by (nonlinear_arith)
            requires
                b == -step,
        ;
    }
}

/// Whether each range stays within its dimension.
pub open spec fn ranges_within(shape: Seq<i64>, r: Ranges) -> bool {
    &&& r.out.len() == shape.len()
    &&& r.start.len() == shape.len()
    &&& r.step.len() == shape.len()
    &&& forall|d: int| 0 <= d < shape.len() ==> 0 <= #[trigger] r.out[d]
    &&& forall|d: int, c: int|
        0 <= d < shape.len() && 0 <= c < r.out[d] ==> 0 <= r.start[d] + #[trigger] (c * r.step[d])
            < shape[d]
}

proof fn lemma_ranges_within(
    shape: Seq<i64>,
    starts: Seq<i64>,
    ends: Seq<i64>,
    axes: Option<Seq<i64>>,
    steps: Option<Seq<i64>>,
    n: int,
)
    requires
        0 <= n <= starts.len(),
        lists_match(starts, ends, axes, steps),
        forall|k: int| 0 <= k < shape.len() ==> #[trigger] shape[k] >= 0,
        forall|i: int| 0 <= i < n ==> #[trigger] entry_ok(shape, axes, steps, i),
    ensures
        ranges_within(shape, ranges(shape, starts, ends, axes, steps, n)),
    decreases n,
{
    let r = ranges(shape, starts, ends, axes, steps, n);
    if n > 0 {
        lemma_ranges_within(shape, starts, ends, axes, steps, n - 1);
        let rest = ranges(shape, starts, ends, axes, steps, n - 1);
        let a = entry_axis(axes, shape.len() as int, n - 1);
        let step = entry_step(steps, n - 1);
        assert(entry_ok(shape, axes, steps, n - 1));
        let dim = shape[a] as int;
        let start = starts[n - 1] as int;
        let end = ends[n - 1] as int;
        lemma_range_bounds(start, end, step, dim);
        assert forall|d: int, c: int| 0 <= d < shape.len() && 0 <= c < r.out[d] implies 0
            <= r.start[d] + #[trigger] (c * r.step[d]) < shape[d] by {
            if d == a {
                lemma_range_within(start, end, step, dim, c);
            } else {
                assert(0 <= rest.start[d] + (c * rest.step[d]) < shape[d]);
            }
        }
    } else {
        assert forall|d: int, c: int| 0 <= d < shape.len() && 0 <= c < r.out[d] implies 0
            <= r.start[d] + #[trigger] (c * r.step[d]) < shape[d] by {
            assert(c * 1 == c) by (nonlinear_arith);
        }
    }
}

proof fn lemma_range_bounds(start: int, end: int, step: int, dim: int)
    requires
        0 <= dim <= i64::MAX,
        step != 0,
        i64::MIN <= start <= i64::MAX,
        i64::MIN <= end <= i64::MAX,
        i64::MIN <= step <= i64::MAX,
    ensures
        0 <= range_len(start, end, step, dim) <= dim,
        0 <= range_start(start, step, dim) <= dim,
{
    let s = range_start(start, step, dim);
    let e = range_end(end, step, dim);
    if step > 0 {
        let a = e - s - 1;
        if e > s {
            assert(0 <= a / step <= a) by (nonlinear_arith)
                requires
                    a >= 0,
                    step >= 1,
            ;
        }
    } else {
        let a = s - e - 1;
        let b = -step;
        if s > e {
            assert(0 <= a / b <= a) by (nonlinear_arith)
                requires
                    a >= 0,
                    b >= 1,
            ;
        }
    }
}

/// The ranges that a slice resolves to never leave the tensor.
pub proof fn law_slice_within(
    shape: Seq<i64>,
    starts: Seq<i64>,
    ends: Seq<i64>,
    axes: Option<Seq<i64>>,
    steps: Option<Seq<i64>>,
)
    requires
        slice_params_of(shape, starts, ends, axes, steps) is Ok,
    ensures
        ranges_within(shape, slice_params_of(shape, starts, ends, axes, steps)->Ok_0),
{
    lemma_count(shape);
    assert forall|i: int| 0 <= i < starts.len() implies #[trigger] entry_ok(shape, axes, steps, i) by {}
    lemma_ranges_within(shape, starts, ends, axes, steps, starts.len() as int);
}

/// The place of the element that stands at place `o` of the slice.
pub open spec fn slice_source(shape: Seq<i64>, r: Ranges, o: int) -> int {
    place(shape, |d: int| r.start[d] + coord(r.out, o, d) * r.step[d])
}

/// The elements of the tensor along the ranges.
pub open spec fn slice_of(t: TensorView, r: Ranges) -> Outcome<TensorView> {
    let es = size_of_code(t.dtype) as int;
    let rank = t.shape.len();
    match fault(t) {
        Some(k) => Err(k),
        None => if es == 0 || r.out.len() != rank || r.start.len() != rank || r.step.len() != rank {
            Err(Kind::Tensor)
        } else {
            match count_of(r.out) {
                None => Err(Kind::Shape),
                Some(n) => Ok(
                    TensorView {
                        dtype: t.dtype,
                        shape: r.out,
                        data: picked(t.data, es, n, |o: int| slice_source(t.shape, r, o)),
                    },
                ),
            }
        },
    }
}

/// Takes the elements along ranges that lie within the tensor.
pub fn slice(data: &HostTensor, out_shape: &[i64], st: &[i64], sp: &[i64]) -> (r: Result<HostTensor>)
    requires
        fault(data@) is None && out_shape@.len() == data.shape@.len() && st@.len()
            == data.shape@.len() && sp@.len() == data.shape@.len() && (count_of(
            out_shape@,
        ) matches Some(n) && n > 0) ==> ranges_within(
            data.shape@,
            (Ranges { out: out_shape@, start: st@, step: sp@ }),
        ),
    ensures
        gives(r, slice_of(data@, (Ranges { out: out_shape@, start: st@, step: sp@ }))),
{
    match data.validate() {
        Ok(_) => {},
        Err(e) => {
            return Err(e);
        },
    }
    let es: usize = elem_size(data.dtype);
    if es == 0 {
        return Err(invalid_tensor("type without size"));
    }
    let rank: usize = data.shape.len();
    if out_shape.len() != rank || st.len() != rank || sp.len() != rank {
        return Err(invalid_tensor("ranges do not match the rank"));
    }
    let n: usize = match element_count(out_shape) {
        Ok(n) => n,
        Err(e) => {
            return Err(e);
        },
    };
    let ghost rg = Ranges { out: out_shape@, start: st@, step: sp@ };
    let ghost src = |o: int| slice_source(data.shape@, rg, o);
    let mut bytes: Vec<u8> = Vec::new();
    if n > 0 {
        proof {
            lemma_sound_len(data@);
            lemma_count(data.shape@);
            lemma_nonempty(out_shape@);
            lemma_count(out_shape@);
            assert forall|k: int| 0 <= k < rank implies #[trigger] data.shape@[k] > 0 by {
                assert(rg.out[k] > 0);
                assert(0 <= rg.start[k] + (0 * rg.step[k]) < data.shape@[k]);
            }
            lemma_whole(data.shape@);
        }
        let out_strides = strides_of(out_shape);
        let strides = strides_of(data.shape.as_slice());
        let mut o: usize = 0;
        while o < n
            invariant
                o <= n,
                rg == (Ranges { out: out_shape@, start: st@, step: sp@ }),
                ranges_within(data.shape@, rg),
                positive(out_shape@),
                positive(data.shape@),
                rank == data.shape@.len(),
                product(data.shape@) <= usize::MAX,
                suffix(data.shape@, 0) == product(data.shape@),
                data.data@.len() == product(data.shape@) * es,
                out_strides@.len() == rank,
                strides@.len() == rank,
                forall|k: int|
                    0 <= k < rank ==> #[trigger] out_strides@[k] == suffix(out_shape@, k + 1),
                forall|k: int|
                    0 <= k < rank ==> #[trigger] strides@[k] == suffix(data.shape@, k + 1),
                src == (|o: int| slice_source(data.shape@, rg, o)),
                bytes@ == picked(data.data@, es as int, o as int, src),
            decreases n - o,
        {
            let s: usize = slice_place(
                data.shape.as_slice(),
                out_shape,
                st,
                sp,
                &strides,
                &out_strides,
                o,
            );
            proof {
                lemma_element_within(s as int, product(data.shape@), es as int);
                assert(src(o as int) == s);
            }
            push_element(&mut bytes, data.data.as_slice(), s, es);
            o += 1;
        }
    }
    Ok(HostTensor { dtype: data.dtype, shape: copy_dims(out_shape), data: bytes })
}

fn slice_place(
    shape: &[i64],
    out: &[i64],
    st: &[i64],
    sp: &[i64],
    strides: &Vec<usize>,
    out_strides: &Vec<usize>,
    o: usize,
) -> (r: usize)
    requires
        positive(out@),
        positive(shape@),
        ranges_within(shape@, (Ranges { out: out@, start: st@, step: sp@ })),
        suffix(shape@, 0) <= usize::MAX,
        out_strides@.len() == out@.len(),
        strides@.len() == out@.len(),
        forall|k: int| 0 <= k < out@.len() ==> #[trigger] out_strides@[k] == suffix(out@, k + 1),
        forall|k: int| 0 <= k < out@.len() ==> #[trigger] strides@[k] == suffix(shape@, k + 1),
    ensures
        r == slice_source(shape@, (Ranges { out: out@, start: st@, step: sp@ }), o as int),
        r < suffix(shape@, 0),
{
    let n: usize = out.len();
    let ghost rg = Ranges { out: out@, start: st@, step: sp@ };
    let ghost x = |d: int| rg.start[d] + coord(rg.out, o as int, d) * rg.step[d];
    let ghost w = |k: int| suffix(shape@, k + 1);
    let mut acc: usize = 0;
    let mut d: usize = 0;
    proof {
        assert forall|k: int| 0 <= k < shape@.len() implies 0 <= #[trigger] x(k) < shape@[k] by {
            lemma_coord_bound(out@, o as int, k);
            let c = coord(out@, o as int, k);
            assert(0 <= rg.start[k] + (c * rg.step[k]) < shape@[k]);
        }
        lemma_suffix_positive(shape@, 0);
        lemma_place_bound(shape@, x, n as int);
    }
    while d < n
        invariant
            n == out@.len(),
            n == shape@.len(),
            n == st@.len(),
            n == sp@.len(),
            d <= n,
            positive(out@),
            positive(shape@),
            rg == (Ranges { out: out@, start: st@, step: sp@ }),
            suffix(shape@, 0) <= usize::MAX,
            out_strides@.len() == n,
            strides@.len() == n,
            x == (|d: int| rg.start[d] + coord(rg.out, o as int, d) * rg.step[d]),
            w == (|k: int| suffix(shape@, k + 1)),
            forall|k: int| 0 <= k < n ==> 0 <= #[trigger] x(k) < shape@[k],
            forall|k: int|
                0 <= k < out@.len() ==> #[trigger] out_strides@[k] == suffix(out@, k + 1),
            forall|k: int| 0 <= k < out@.len() ==> #[trigger] strides@[k] == suffix(shape@, k + 1),
            acc == weighted(x, w, d as int),
        decreases n - d,
    {
        proof {
            lemma_suffix_positive(out@, d + 1);
            lemma_coord_bound(out@, o as int, d as int);
            lemma_next_place(shape@, x, d as int);
            lemma_dim_bound(shape@, d as int);
        }
        let c: usize = coord_along(o, out_strides[d], out[d]);
        let ghost e = x(d as int);
        let step: i128 = sp[d] as i128;
        proof {
            let ci = c as int;
            let si = step as int;
            assert(e == st@[d as int] + ci * si);
            assert(-0x1_0000_0000_0000_0000 < ci * si < 0x1_0000_0000_0000_0000);
        }
        let at: i128 = st[d] as i128 + c as i128 * step;
        acc = acc + (at as usize) * strides[d];
        d += 1;
    }
    acc
}

} // verus!
