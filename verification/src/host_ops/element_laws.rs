//! Which elements the operators on the host make, and from which they make them.

use crate::bytes::{element, lemma_picked_element};
use crate::error::Kind;
use crate::graph::{size_of_code, TensorView};
use crate::host_ops::arith::{
    compare_of, int_binary_of, int_domain, int_result_at, int_value, law_quotient_remainder,
    magnitude, not_of, quotient, BinOp, CmpOp,
};
use crate::host_ops::fill::{
    const_of_shape_of, expand_of, fill_value, lemma_element_within, tile_of, tile_source,
};
use crate::host_ops::gather::{
    element_coords, gather_count, gather_elements_of, gather_of, gather_source, index_ok,
    lemma_gather_bound, normal_index,
};
use crate::host_ops::lanes::{lane_of, lane_place, lemma_lane_place, step_of};
use crate::host_ops::scan::{
    front_axis, lane_max, lane_min, lane_sum, lane_value, reduce_of, running, summed, RedOp,
};
use crate::host_ops::select::{chosen_at, where_of};
use crate::host_ops::{
    elements, fault, ints_of, law_int_round_trip, lemma_sound_len, BOOL, INT64,
};
use crate::interp::cut_laws::lemma_strung_element;
use crate::shape::{
    coord, count_of, joins, joint_shape, lemma_coord_bound, lemma_count, lemma_joint_fits,
    lemma_nonempty, lemma_place_bound, lemma_split_product, lemma_suffix_positive, lemma_whole,
    place, positive, product, source, suffix,
};
use crate::shape_laws::{law_joint_strides, operand_coords};
use vstd::prelude::*;

verus! {

// --- arithmetic -------------------------------------------------------------------------

/// The place in an operand of shape `shape` of the element that goes into element `o` of a result
/// of shape `out`: that of its coordinates, those of single dimensions being zero.
pub open spec fn operand_place(shape: Seq<i64>, out: Seq<i64>, o: int) -> int {
    place(shape, operand_coords(shape, out.len() as int, |k: int| coord(out, o, k)))
}

proof fn lemma_operand_place(shape: Seq<i64>, out: Seq<i64>, o: int)
    requires
        positive(shape),
        shape.len() <= out.len(),
    ensures
        source(shape, out, o) == operand_place(shape, out, o),
{
    law_joint_strides(shape, out.len() as int, |k: int| coord(out, o, k));
}

/// Where a result has elements, both operands do.
proof fn lemma_operands_positive(a: Seq<i64>, b: Seq<i64>)
    requires
        joins(a, b),
        product(joint_shape(a, b)) > 0,
        count_of(joint_shape(a, b)) is Some || positive(joint_shape(a, b)),
    ensures
        positive(joint_shape(a, b)),
        positive(a),
        positive(b),
        a.len() <= joint_shape(a, b).len(),
        b.len() <= joint_shape(a, b).len(),
{
    let out = joint_shape(a, b);
    lemma_joint_fits(a, b);
    if !positive(out) {
        lemma_count(out);
        lemma_nonempty(out);
    }
    assert forall|k: int| 0 <= k < a.len() implies #[trigger] a[k] > 0 by {
        assert(a[k] == 1 || a[k] == out[k + (out.len() - a.len())]);
        assert(out[k + (out.len() - a.len())] > 0);
    }
    assert forall|k: int| 0 <= k < b.len() implies #[trigger] b[k] > 0 by {
        assert(b[k] == 1 || b[k] == out[k + (out.len() - b.len())]);
        assert(out[k + (out.len() - b.len())] > 0);
    }
}

/// **Integer arithmetic is arithmetic**: sums, differences and products are those of the numbers;
/// quotients are rounded towards zero; the smaller and the larger are one of the two.
pub proof fn law_int_value(op: BinOp, x: int, y: int)
    ensures
        op == BinOp::Add ==> int_value(op, x, y) == Some(x + y),
        op == BinOp::Sub ==> (int_value(op, x, y) matches Some(v) && v + y == x),
        op == BinOp::Mul ==> int_value(op, x, y) == Some(x * y),
        op == BinOp::Div ==> (int_value(op, x, y) is None) == (y == 0),
        op == BinOp::Div && y != 0 ==> {
            let v = int_value(op, x, y)->Some_0;
            &&& magnitude(x - v * y) < magnitude(y)
            &&& x - v * y == 0 || (x - v * y < 0) == (x < 0)
        },
        op == BinOp::Min ==> (int_value(op, x, y) matches Some(v) && v <= x && v <= y && (v == x || v
            == y)),
        op == BinOp::Max ==> (int_value(op, x, y) matches Some(v) && v >= x && v >= y && (v == x || v
            == y)),
        op == BinOp::Pow && y < 0 ==> int_value(op, x, y) is None,
        op == BinOp::Pow && y == 0 ==> int_value(op, x, y) == Some(1int),
        op == BinOp::Pow && 1 <= y <= 0xffff_ffff ==> int_value(op, x, y) == Some(
            x * int_value(op, x, y - 1)->Some_0,
        ),
{
    if op == BinOp::Div && y != 0 {
        law_quotient_remainder(x, y);
    }
    if op == BinOp::Pow && y >= 0 {
        reveal(vstd::arithmetic::power::pow);
    }
}

/// **Integer arithmetic goes element by element**: element `o` is made from the elements of both
/// operands at its coordinates, the first operand on the left.
pub proof fn law_int_binary_element(a: TensorView, b: TensorView, op: BinOp, t: TensorView, o: int)
    requires
        int_binary_of(a, b, op) == Ok::<TensorView, Kind>(t),
        0 <= o < product(joint_shape(a.shape, b.shape)),
        count_of(t.shape) is Some,
        64 * product(joint_shape(a.shape, b.shape)) + 7 <= usize::MAX,
    ensures
        t.dtype == INT64,
        t.shape == joint_shape(a.shape, b.shape),
        ints_of(a) is Ok,
        ints_of(b) is Ok,
        ints_of(t) is Ok,
        ({
            let x = ints_of(a)->Ok_0[operand_place(a.shape, t.shape, o)] as int;
            let y = ints_of(b)->Ok_0[operand_place(b.shape, t.shape, o)] as int;
            int_value(op, x, y) matches Some(v) && (i64::MIN <= v <= i64::MAX ==> ints_of(t)->Ok_0[o]
                == v)
        }),
{
    let out = joint_shape(a.shape, b.shape);
    let (av, bv) = (ints_of(a)->Ok_0, ints_of(b)->Ok_0);
    lemma_operands_positive(a.shape, b.shape);
    lemma_operand_place(a.shape, out, o);
    lemma_operand_place(b.shape, out, o);
    assert(int_result_at(av, bv, a, b, op, o) is Some);
    let v = Seq::new(
        product(out) as nat,
        |i: int| int_result_at(av, bv, a, b, op, i)->0 as i64,
    );
    lemma_count(out);
    law_int_round_trip(out, v);
    assert(v[o] == int_result_at(av, bv, a, b, op, o)->0 as i64);
}

/// **A comparison of integers says how they compare**, element by element.
pub proof fn law_compare_element(a: TensorView, b: TensorView, op: CmpOp, t: TensorView, o: int)
    requires
        compare_of(a, b, op) == Ok::<TensorView, Kind>(t),
        int_domain(a.dtype),
        int_domain(b.dtype),
        0 <= o < product(joint_shape(a.shape, b.shape)),
        count_of(t.shape) is Some,
    ensures
        t.dtype == BOOL,
        t.shape == joint_shape(a.shape, b.shape),
        t.data.len() == product(t.shape),
        t.data[o] <= 1,
        ({
            let x = ints_of(a)->Ok_0[operand_place(a.shape, t.shape, o)];
            let y = ints_of(b)->Ok_0[operand_place(b.shape, t.shape, o)];
            &&& op == CmpOp::Equal ==> (t.data[o] == 1) == (x == y)
            &&& op == CmpOp::Less ==> (t.data[o] == 1) == (x < y)
            &&& op == CmpOp::Greater ==> (t.data[o] == 1) == (x > y)
            &&& op == CmpOp::LessOrEqual ==> (t.data[o] == 1) == (x <= y)
            &&& op == CmpOp::And ==> (t.data[o] == 1) == (x != 0 && y != 0)
        }),
{
    lemma_operands_positive(a.shape, b.shape);
    lemma_operand_place(a.shape, t.shape, o);
    lemma_operand_place(b.shape, t.shape, o);
}

/// **Comparisons of single-precision numbers belong together**: greater is less the other way
/// round, and at most is less or equal.
pub proof fn law_float_comparisons(x: u32, y: u32)
    ensures
        crate::host_ops::arith::float_compare(CmpOp::Greater, x, y)
            == crate::host_ops::arith::float_compare(CmpOp::Less, y, x),
        crate::host_ops::arith::float_compare(CmpOp::LessOrEqual, x, y) == (
        crate::host_ops::arith::float_compare(CmpOp::Less, x, y)
            || crate::host_ops::arith::float_compare(CmpOp::Equal, x, y)),
        crate::host_ops::arith::float_compare(CmpOp::Equal, x, y)
            == crate::host_ops::arith::float_compare(CmpOp::Equal, y, x),
        !(crate::host_ops::arith::float_compare(CmpOp::Less, x, y)
            && crate::host_ops::arith::float_compare(CmpOp::Less, y, x)),
        !(crate::host_ops::arith::float_compare(CmpOp::Less, x, y)
            && crate::host_ops::arith::float_compare(CmpOp::Equal, x, y)),
{
}

/// **Truth values are turned round**: 1 where the element is zero, and 0 elsewhere.
pub proof fn law_not_element(t: TensorView, r: TensorView, o: int)
    requires
        not_of(t) == Ok::<TensorView, Kind>(r),
        0 <= o < elements(t),
    ensures
        r.dtype == BOOL,
        r.shape == t.shape,
        r.data.len() == elements(t),
        r.data[o] == if ints_of(t)->Ok_0[o] == 0 {
            1int
        } else {
            0
        },
{
    lemma_sound_len(t);
}

// --- lines ------------------------------------------------------------------------------

/// **A lane is a line along the axis**: its elements stand as far apart as there are elements
/// behind the axis, and lanes of one block stand side by side.
pub proof fn law_lane_place(c: int, inner: int, block: int, side: int, k: int)
    requires
        inner >= 1,
        c >= 1,
        block >= 0,
        0 <= side < inner,
        0 <= k < c,
    ensures
        lane_place(c, inner, block * inner + side, k) == (block * c + k) * inner + side,
        lane_of(c, inner, (block * c + k) * inner + side) == block * inner + side,
        step_of(c, inner, (block * c + k) * inner + side) == k,
{
    let r = block * inner + side;
    vstd::arithmetic::div_mod::lemma_fundamental_div_mod_converse(r, inner, block, side);
    assert(block * (c * inner) + side + k * inner == (block * c + k) * inner + side)
        by (nonlinear_arith);
    assert(0 <= r) by (nonlinear_arith)
        requires
            r == block * inner + side,
            block >= 0,
            inner >= 1,
            side >= 0,
    ;
    lemma_lane_place(c, inner, r, k);
}

/// The elements of a lane.
pub open spec fn lane(v: Seq<i64>, c: int, inner: int, r: int) -> Seq<int> {
    Seq::new(c as nat, |k: int| v[lane_place(c, inner, r, k)] as int)
}

/// **A lane reduces to what its elements give**: their sum, the quotient of it by their number, the
/// largest of them or the smallest.
pub proof fn law_lane_value(op: RedOp, v: Seq<i64>, c: int, inner: int, r: int)
    requires
        c >= 1,
    ensures
        ({
            let s = lane(v, c, inner, r);
            let x = lane_value(op, v, c, inner, r);
            &&& op == RedOp::Sum ==> x == s.fold_left(0, |a: int, e: int| a + e)
            &&& op == RedOp::Mean ==> x == quotient(s.fold_left(0, |a: int, e: int| a + e), c)
            &&& op == RedOp::Max ==> s.contains(x) && forall|k: int|
                0 <= k < c ==> #[trigger] s[k] <= x
            &&& op == RedOp::Min ==> s.contains(x) && forall|k: int|
                0 <= k < c ==> x <= #[trigger] s[k]
        }),
{
    lemma_lane_fold(v, c, inner, r, c);
    assert(lane(v, c, inner, r).take(c) =~= lane(v, c, inner, r));
}

proof fn lemma_lane_fold(v: Seq<i64>, c: int, inner: int, r: int, k: int)
    requires
        0 <= k <= c,
    ensures
        ({
            let s = lane(v, c, inner, r).take(k);
            &&& lane_sum(v, c, inner, r, k) == s.fold_left(0, |a: int, e: int| a + e)
            &&& k >= 1 ==> s.contains(lane_max(v, c, inner, r, k)) && s.contains(
                lane_min(v, c, inner, r, k),
            )
            &&& forall|j: int|
                0 <= j < k ==> lane_min(v, c, inner, r, k) <= #[trigger] s[j] <= lane_max(
                    v,
                    c,
                    inner,
                    r,
                    k,
                )
            &&& k == 0 ==> lane_max(v, c, inner, r, k) == i64::MIN && lane_min(v, c, inner, r, k)
                == i64::MAX
        }),
    decreases k,
{
    let all = lane(v, c, inner, r);
    let s = all.take(k);
    let f = |a: int, e: int| a + e;
    if k > 0 {
        lemma_lane_fold(v, c, inner, r, k - 1);
        let rest = all.take(k - 1);
        assert(s.drop_last() =~= rest);
        assert(s.last() == v[lane_place(c, inner, r, k - 1)]);
        reveal_with_fuel(Seq::fold_left, 2);
        assert(s.fold_left(0, f) == f(rest.fold_left(0, f), s.last()));
        assert(s[k - 1] == s.last());
        let hi = lane_max(v, c, inner, r, k - 1);
        let lo = lane_min(v, c, inner, r, k - 1);
        if k > 1 {
            let i = rest.index_of(hi);
            assert(s[i] == hi);
            let j = rest.index_of(lo);
            assert(s[j] == lo);
        }
        assert forall|j: int| 0 <= j < k implies lane_min(v, c, inner, r, k) <= #[trigger] s[j]
            <= lane_max(v, c, inner, r, k) by {
            if j < k - 1 {
                assert(rest[j] == s[j]);
            }
        }
    } else {
        assert(s =~= Seq::empty());
    }
}

/// **A reduction keeps the type and gives one number for each lane**: the axis has one element
/// afterwards, or is gone.
pub proof fn law_reduce_shape(t: TensorView, axis: int, op: RedOp, keepdims: bool, u: TensorView)
    requires
        reduce_of(t, axis, op, keepdims) == Ok::<TensorView, Kind>(u),
        0 <= axis,
    ensures
        axis < t.shape.len(),
        u.dtype == t.dtype,
        u.shape.len() == if keepdims {
            t.shape.len() as int
        } else {
            t.shape.len() - 1
        },
        keepdims ==> u.shape[axis] == 1,
        forall|d: int| 0 <= d < axis ==> #[trigger] u.shape[d] == t.shape[d],
        forall|d: int|
            axis < d < t.shape.len() ==> #[trigger] t.shape[d] == u.shape[if keepdims {
                d
            } else {
                d - 1
            }],
{
}

/// **Running sums go on from one another**: an exclusive sum is the inclusive one before it, and the
/// first is zero; backwards, the last is.
pub proof fn law_running_sums(v: Seq<i64>, c: int, inner: int, r: int, reverse: bool, k: int)
    requires
        c >= 1,
        0 <= k < c,
    ensures
        ({
            let at = |exclusive: bool, i: int|
                running(v, c, inner, r, reverse, summed(c, reverse, exclusive, i));
            &&& !reverse && k == 0 ==> at(true, k) == 0
            &&& reverse && k == c - 1 ==> at(true, k) == 0
            &&& !reverse && k > 0 ==> at(true, k) == at(false, k - 1)
            &&& reverse && k < c - 1 ==> at(true, k) == at(false, k + 1)
        }),
{
}

// --- moving -----------------------------------------------------------------------------

/// **Gathering takes the elements that the indices name**: element `j` behind index number `m` in
/// block `b` of the result is element `j` behind that index in block `b` of the tensor.
pub proof fn law_gather_element(
    t: TensorView,
    indices: TensorView,
    axis: int,
    u: TensorView,
    b: int,
    m: int,
    j: int,
)
    requires
        gather_of(t, indices, axis) == Ok::<TensorView, Kind>(u),
        positive(t.shape),
        0 <= b < product(t.shape.take(front_axis(axis, t.shape.len() as int))),
        0 <= m < ints_of(indices)->Ok_0.len(),
        0 <= j < product(t.shape.skip(front_axis(axis, t.shape.len() as int) + 1)),
    ensures
        ({
            let a = front_axis(axis, t.shape.len() as int);
            let es = size_of_code(t.dtype) as int;
            let count = ints_of(indices)->Ok_0.len() as int;
            let behind = product(t.shape.skip(a + 1));
            let dim = t.shape[a] as int;
            let i = ints_of(indices)->Ok_0[m] as int;
            let at = if i < 0 {
                i + dim
            } else {
                i
            };
            &&& u.dtype == t.dtype
            &&& u.shape == t.shape.take(a) + indices.shape + t.shape.skip(a + 1)
            &&& 0 <= at < dim
            &&& element(u.data, es, (b * count + m) * behind + j) == element(
                t.data,
                es,
                (b * dim + at) * behind + j,
            )
        }),
{
    let a = front_axis(axis, t.shape.len() as int);
    let es = size_of_code(t.dtype) as int;
    let idx = ints_of(indices)->Ok_0;
    let count = idx.len() as int;
    let behind = product(t.shape.skip(a + 1));
    crate::shape_laws::law_suffix_is_product(t.shape, a + 1);
    lemma_suffix_positive(t.shape, a + 1);
    let dim = t.shape[a] as int;
    let outer = product(t.shape.take(a));
    let n = gather_count(t.shape, count, a);
    let src = |o: int| gather_source(idx, dim, behind, o);
    lemma_sound_len(t);
    lemma_count(t.shape);
    lemma_split_product(t.shape, a);
    assert(suffix(t.shape, a) == dim * behind);
    assert(outer * (dim * behind) == elements(t));
    assert forall|o: int| 0 <= o < n implies 0 <= #[trigger] src(o) && src(o) * es + es
        <= t.data.len() by {
        let g = normal_index(idx[o / behind % count] as int, dim);
        lemma_gather_place(outer, behind, count, o);
        assert(index_ok(idx[o / behind % count] as int, dim));
        lemma_gather_bound(outer, dim, behind, count, o, g);
        lemma_element_within(src(o), elements(t), es);
    }
    let o = (b * count + m) * behind + j;
    assert(0 <= o < outer * (behind * count)) by (nonlinear_arith)
        requires
            0 <= b < outer,
            0 <= m < count,
            0 <= j < behind,
            o == (b * count + m) * behind + j,
    ;
    lemma_picked_element(t.data, es, n, src, o);
    let h = b * count + m;
    assert(0 <= h) by (nonlinear_arith)
        requires
            h == b * count + m,
            b >= 0,
            count >= 0,
            m >= 0,
    ;
    vstd::arithmetic::div_mod::lemma_fundamental_div_mod_converse(o, behind, h, j);
    vstd::arithmetic::div_mod::lemma_fundamental_div_mod_converse(h, count, b, m);
    let rest = m * behind + j;
    assert(o == b * (behind * count) + rest && 0 <= rest < behind * count) by (nonlinear_arith)
        requires
            o == (b * count + m) * behind + j,
            rest == m * behind + j,
            0 <= m < count,
            0 <= j < behind,
    ;
    vstd::arithmetic::div_mod::lemma_fundamental_div_mod_converse(o, behind * count, b, rest);
    let g = normal_index(idx[m] as int, dim);
    assert(index_ok(idx[m] as int, dim));
    assert(b * (dim * behind) + g * behind + j == (b * dim + g) * behind + j) by (nonlinear_arith);
}

proof fn lemma_gather_place(outer: int, behind: int, count: int, o: int)
    requires
        behind >= 1,
        count >= 1,
        0 <= o,
    ensures
        0 <= o / behind % count < count,
{
    assert(0 <= o / behind) by (nonlinear_arith)
        requires
            0 <= o,
            behind >= 1,
    ;
}

/// **Spreading repeats elements**: element `o` is the one at its coordinates, those of single
/// dimensions being zero.
pub proof fn law_expand_element(t: TensorView, target: Seq<i64>, u: TensorView, o: int)
    requires
        expand_of(t, target) == Ok::<TensorView, Kind>(u),
        0 <= o < product(u.shape),
        count_of(u.shape) is Some,
    ensures
        u.dtype == t.dtype,
        u.shape == joint_shape(t.shape, target),
        element(u.data, size_of_code(t.dtype) as int, o) == element(
            t.data,
            size_of_code(t.dtype) as int,
            operand_place(t.shape, u.shape, o),
        ),
{
    let out = u.shape;
    let es = size_of_code(t.dtype) as int;
    let src = |i: int| source(t.shape, out, i);
    let n = count_of(out)->Some_0;
    lemma_count(out);
    lemma_operands_positive(t.shape, target);
    lemma_joint_fits(t.shape, target);
    lemma_sound_len(t);
    lemma_count(t.shape);
    lemma_whole(t.shape);
    assert forall|i: int| 0 <= i < n implies 0 <= #[trigger] src(i) && src(i) * es + es
        <= t.data.len() by {
        lemma_operand_within(t.shape, out, i);
        lemma_element_within(src(i), elements(t), es);
    }
    lemma_picked_element(t.data, es, n, src, o);
    lemma_operand_place(t.shape, out, o);
}

proof fn lemma_operand_within(shape: Seq<i64>, out: Seq<i64>, o: int)
    requires
        crate::shape::fits_into(shape, out),
        positive(shape),
        positive(out),
        0 <= o,
    ensures
        0 <= source(shape, out, o) < product(shape),
{
    crate::shape::lemma_source_bound(shape, out, o, out.len() as int);
    lemma_whole(shape);
}

/// **A choice takes each element from the first where the condition is not zero, else from the
/// second**, each at its coordinates.
pub proof fn law_where_element(
    c: TensorView,
    x: TensorView,
    y: TensorView,
    out: Seq<i64>,
    u: TensorView,
    o: int,
)
    requires
        where_of(c, x, y, out) == Ok::<TensorView, Kind>(u),
        0 <= o < product(out),
        positive(c.shape),
        positive(x.shape),
        positive(y.shape),
        positive(out),
        crate::shape::fits_into(c.shape, out),
        crate::shape::fits_into(x.shape, out),
        crate::shape::fits_into(y.shape, out),
    ensures
        u.dtype == x.dtype,
        u.dtype == y.dtype,
        u.shape == out,
        ({
            let es = size_of_code(x.dtype) as int;
            let holds = ints_of(c)->Ok_0[operand_place(c.shape, out, o)] != 0;
            element(u.data, es, o) == if holds {
                element(x.data, es, operand_place(x.shape, out, o))
            } else {
                element(y.data, es, operand_place(y.shape, out, o))
            }
        }),
{
    let es = size_of_code(x.dtype) as int;
    let cv = ints_of(c)->Ok_0;
    let f = |i: int| chosen_at(cv, c, x, y, out, i);
    let n = count_of(out)->Some_0;
    lemma_count(out);
    lemma_sound_len(x);
    lemma_sound_len(y);
    lemma_count(x.shape);
    lemma_count(y.shape);
    assert forall|i: int| 0 <= i < n implies (#[trigger] f(i)).len() == es by {
        lemma_operand_within(x.shape, out, i);
        lemma_operand_within(y.shape, out, i);
        lemma_element_within(source(x.shape, out, i), elements(x), es);
        lemma_element_within(source(y.shape, out, i), elements(y), es);
    }
    lemma_strung_element(n, f, es, o);
    lemma_operand_place(c.shape, out, o);
    lemma_operand_place(x.shape, out, o);
    lemma_operand_place(y.shape, out, o);
}

/// **Tiling repeats the tensor**: every dimension is as many times as large, and element `o` is the
/// one at its coordinates, counted from the start of each repetition.
pub proof fn law_tile_element(t: TensorView, repeats: Seq<i64>, u: TensorView, o: int)
    requires
        tile_of(t, repeats) == Ok::<TensorView, Kind>(u),
        0 <= o < product(u.shape),
        positive(t.shape),
        forall|d: int|
            0 <= d < t.shape.len() ==> #[trigger] t.shape[d] * repeats[d] <= i64::MAX,
    ensures
        u.dtype == t.dtype,
        u.shape.len() == t.shape.len(),
        forall|d: int| 0 <= d < t.shape.len() ==> #[trigger] u.shape[d] == t.shape[d] * repeats[d],
        element(u.data, size_of_code(t.dtype) as int, o) == element(
            t.data,
            size_of_code(t.dtype) as int,
            place(t.shape, |d: int| coord(u.shape, o, d) % (t.shape[d] as int)),
        ),
{
    let out = u.shape;
    let es = size_of_code(t.dtype) as int;
    let src = |i: int| tile_source(t.shape, out, i);
    let n = count_of(out)->Some_0;
    lemma_count(out);
    assert forall|d: int| 0 <= d < t.shape.len() implies #[trigger] out[d] == t.shape[d] * repeats[d] by {
        assert(repeats[d] >= 0);
        let (x, y) = (t.shape[d] as int, repeats[d] as int);
        assert(x * y >= 0) by (nonlinear_arith)
            requires
                x >= 0,
                y >= 0,
        ;
    }
    lemma_nonempty(out);
    lemma_sound_len(t);
    lemma_count(t.shape);
    lemma_whole(t.shape);
    assert forall|i: int| 0 <= i < n implies 0 <= #[trigger] src(i) && src(i) * es + es
        <= t.data.len() by {
        let x = |d: int| coord(out, i, d) % (t.shape[d] as int);
        assert forall|d: int| 0 <= d < t.shape.len() implies 0 <= #[trigger] x(d) < t.shape[d] by {
            assert(t.shape[d] > 0);
        }
        lemma_place_bound(t.shape, x, t.shape.len() as int);
        lemma_element_within(src(i), elements(t), es);
    }
    lemma_picked_element(t.data, es, n, src, o);
}

/// **A filled tensor has the same value everywhere**: the one that is given, or zero where it is of
/// another size.
pub proof fn law_filled_element(shape: Seq<i64>, dtype: i32, value: Seq<u8>, u: TensorView, o: int)
    requires
        const_of_shape_of(shape, dtype, value) == Ok::<TensorView, Kind>(u),
        0 <= o < product(shape),
    ensures
        u.dtype == dtype,
        u.shape == shape,
        value.len() == size_of_code(dtype) ==> element(u.data, size_of_code(dtype) as int, o)
            == value,
        value.len() != size_of_code(dtype) ==> forall|i: int|
            0 <= i < size_of_code(dtype) ==> (#[trigger] element(
                u.data,
                size_of_code(dtype) as int,
                o,
            )[i]) == 0,
{
    let es = size_of_code(dtype) as int;
    let n = count_of(shape)->Some_0;
    lemma_count(shape);
    let f = |i: int| fill_value(value, es);
    lemma_strung_element(n, f, es, o);
}

/// **Gathering element by element** takes element `o` from the place of its own coordinates, with
/// the index in the place of that along the axis.
pub proof fn law_gather_elements_element(
    t: TensorView,
    indices: TensorView,
    axis: int,
    u: TensorView,
    o: int,
)
    requires
        gather_elements_of(t, indices, axis) == Ok::<TensorView, Kind>(u),
        0 <= o < elements(indices),
        positive(t.shape),
        forall|d: int|
            0 <= d < t.shape.len() && d != front_axis(axis, t.shape.len() as int)
                ==> #[trigger] indices.shape[d] <= t.shape[d],
    ensures
        ({
            let a = front_axis(axis, t.shape.len() as int);
            let es = size_of_code(t.dtype) as int;
            let i = ints_of(indices)->Ok_0[o] as int;
            let at = if i < 0 {
                i + t.shape[a]
            } else {
                i
            };
            &&& u.dtype == t.dtype
            &&& u.shape == indices.shape
            &&& 0 <= at < t.shape[a]
            &&& element(u.data, es, o) == element(
                t.data,
                es,
                place(
                    t.shape,
                    |d: int|
                        if d == a {
                            at
                        } else {
                            coord(indices.shape, o, d)
                        },
                ),
            )
        }),
{
    let a = front_axis(axis, t.shape.len() as int);
    let es = size_of_code(t.dtype) as int;
    let idx = ints_of(indices)->Ok_0;
    let n = idx.len() as int;
    let out = indices.shape;
    let src = |i: int| crate::host_ops::gather::element_source(t.shape, out, idx, a, i);
    lemma_sound_len(t);
    lemma_count(t.shape);
    lemma_whole(t.shape);
    lemma_sound_len(indices);
    lemma_count(out);
    lemma_nonempty(out);
    assert forall|i: int| 0 <= i < n implies 0 <= #[trigger] src(i) && src(i) * es + es
        <= t.data.len() by {
        let x = element_coords(t.shape, out, idx, a, i);
        assert forall|d: int| 0 <= d < t.shape.len() implies 0 <= #[trigger] x(d) < t.shape[d] by {
            if d == a {
                assert(index_ok(idx[i] as int, t.shape[a] as int));
            } else {
                lemma_coord_bound(out, i, d);
            }
        }
        lemma_place_bound(t.shape, x, t.shape.len() as int);
        lemma_element_within(src(i), elements(t), es);
    }
    lemma_picked_element(t.data, es, n, src, o);
    assert(index_ok(idx[o] as int, t.shape[a] as int));
    let x = element_coords(t.shape, out, idx, a, o);
    let at = normal_index(idx[o] as int, t.shape[a] as int);
    let y = |d: int|
        if d == a {
            at
        } else {
            coord(out, o, d)
        };
    crate::shape::lemma_weighted_same(
        x,
        |k: int| suffix(t.shape, k + 1),
        y,
        |k: int| suffix(t.shape, k + 1),
        t.shape.len() as int,
    );
}

// --- what is not refused ----------------------------------------------------------------

/// **Integer arithmetic succeeds** exactly where the shapes broadcast, both operands can be read,
/// and no element is divided by zero or raised to a power that is none.
pub proof fn law_int_binary_succeeds(a: TensorView, b: TensorView, op: BinOp)
    ensures
        (int_binary_of(a, b, op) is Ok) == (joins(a.shape, b.shape) && ints_of(a) is Ok && ints_of(b)
            is Ok && forall|i: int|
            0 <= i < product(joint_shape(a.shape, b.shape)) ==> #[trigger] int_result_at(
                ints_of(a)->Ok_0,
                ints_of(b)->Ok_0,
                a,
                b,
                op,
                i,
            ) is Some),
        !joins(a.shape, b.shape) ==> int_binary_of(a, b, op) == Err::<TensorView, Kind>(Kind::Shape),
{
}

/// **Integers can be compared** wherever their shapes broadcast and they can be read.
pub proof fn law_compare_succeeds(a: TensorView, b: TensorView, op: CmpOp)
    requires
        joins(a.shape, b.shape),
        ints_of(a) is Ok,
        ints_of(b) is Ok,
    ensures
        compare_of(a, b, op) is Ok,
{
}

/// **Gathering succeeds** exactly where the axis is one of the tensor's and all indices name an
/// element along it.
pub proof fn law_gather_succeeds(t: TensorView, indices: TensorView, axis: int)
    requires
        fault(t) is None,
        fault(indices) is None,
        size_of_code(t.dtype) > 0,
        ints_of(indices) is Ok,
    ensures
        ({
            let a = front_axis(axis, t.shape.len() as int);
            (gather_of(t, indices, axis) is Ok) == (0 <= a < t.shape.len() && forall|i: int|
                0 <= i < ints_of(indices)->Ok_0.len() ==> -t.shape[a] <= #[trigger] ints_of(
                    indices,
                )->Ok_0[i] < t.shape[a])
        }),
{
    let a = front_axis(axis, t.shape.len() as int);
    let idx = ints_of(indices)->Ok_0;
    if 0 <= a < t.shape.len() {
        assert forall|i: int| 0 <= i < idx.len() implies index_ok(
            #[trigger] idx[i] as int,
            t.shape[a] as int,
        ) == (-t.shape[a] <= idx[i] < t.shape[a]) by {}
    }
}

/// **Spreading succeeds** where the shapes broadcast and the result can be counted.
pub proof fn law_expand_succeeds(t: TensorView, target: Seq<i64>)
    requires
        fault(t) is None,
        size_of_code(t.dtype) > 0,
        joins(t.shape, target),
        count_of(joint_shape(t.shape, target)) is Some,
    ensures
        expand_of(t, target) is Ok,
{
}

/// **A reduction of integers succeeds** along every axis that the tensor has.
pub proof fn law_reduce_succeeds(t: TensorView, axis: int, op: RedOp, keepdims: bool)
    requires
        ints_of(t) is Ok,
        0 <= axis < t.shape.len(),
        t.dtype != crate::host_ops::FLOAT,
        positive(t.shape),
        64 * elements(t) + 7 <= usize::MAX,
    ensures
        reduce_of(t, axis, op, keepdims) is Ok,
{
    let v = ints_of(t)->Ok_0;
    let c = t.shape[axis] as int;
    let inner = suffix(t.shape, axis + 1);
    let out = crate::host_ops::scan::reduced_shape(t.shape, axis, keepdims);
    lemma_sound_len(t);
    lemma_count(t.shape);
    lemma_reduced_count(t.shape, axis, keepdims);
    let rows = Seq::new(
        crate::host_ops::scan::lane_count(v.len() as int, c) as nat,
        |r: int| lane_value(op, v, c, inner, r) as i64,
    );
    law_int_round_trip(out, rows);
}

proof fn lemma_reduced_count(shape: Seq<i64>, axis: int, keepdims: bool)
    requires
        positive(shape),
        0 <= axis < shape.len(),
        count_of(shape) is Some,
    ensures
        count_of(crate::host_ops::scan::reduced_shape(shape, axis, keepdims)) == Some(
            product(shape) / (shape[axis] as int),
        ),
        0 <= product(shape) / (shape[axis] as int) <= product(shape),
        product(shape) > 0,
{
    let out = crate::host_ops::scan::reduced_shape(shape, axis, keepdims);
    let c = shape[axis] as int;
    lemma_count(shape);
    lemma_whole(shape);
    lemma_suffix_positive(shape, 0);
    lemma_split_product(shape, axis);
    let ahead = product(shape.take(axis));
    let behind = suffix(shape, axis + 1);
    lemma_suffix_positive(shape, axis + 1);
    assert(suffix(shape, axis) == c * behind);
    assert(ahead * (c * behind) == (ahead * behind) * c) by (nonlinear_arith);
    vstd::arithmetic::div_mod::lemma_fundamental_div_mod_converse(
        product(shape),
        c,
        ahead * behind,
        0,
    );
    let at = if keepdims {
        axis + 1
    } else {
        axis
    };
    assert(out.take(axis) =~= shape.take(axis));
    assert(out.skip(at) =~= shape.skip(axis + 1));
    crate::shape_laws::law_suffix_is_product(out, at);
    crate::shape_laws::law_suffix_is_product(shape, axis + 1);
    lemma_split_product(out, axis);
    if keepdims {
        assert(suffix(out, axis) == out[axis] * suffix(out, axis + 1));
        assert(1 * behind == behind);
    }
    assert(product(out) == ahead * behind);
    assert(positive(out)) by {
        assert forall|d: int| 0 <= d < out.len() implies #[trigger] out[d] > 0 by {
            if keepdims {
                if d != axis {
                    assert(shape[d] > 0);
                }
            } else if d < axis {
                assert(shape[d] > 0);
            } else {
                assert(shape[d + 1] > 0);
            }
        }
    }
    let q = ahead * behind;
    assert(0 <= q <= q * c) by (nonlinear_arith)
        requires
            c >= 1,
            q * c >= 1,
    ;
    lemma_counted(out);
}

/// A shape without empty dimensions and with a product that can be held can be counted.
proof fn lemma_counted(shape: Seq<i64>)
    requires
        positive(shape),
        product(shape) <= usize::MAX,
    ensures
        count_of(shape) == Some(product(shape)),
        product(shape) >= 1,
    decreases shape.len(),
{
    if shape.len() > 0 {
        let rest = shape.drop_last();
        let (p, l) = (product(rest), shape.last() as int);
        assert(l == shape[shape.len() - 1]);
        assert(positive(rest)) by {
            assert forall|d: int| 0 <= d < rest.len() implies #[trigger] rest[d] > 0 by {
                assert(rest[d] == shape[d]);
            }
        }
        lemma_product_positive(rest);
        assert(p <= p * l) by (nonlinear_arith)
            requires
                p >= 1,
                l >= 1,
        ;
        lemma_counted(rest);
    }
}

proof fn lemma_product_positive(shape: Seq<i64>)
    requires
        positive(shape),
    ensures
        product(shape) >= 1,
{
    lemma_whole(shape);
    lemma_suffix_positive(shape, 0);
}

} // verus!
