//! What shapes, strides and broadcasting mean.

use crate::host_ops::fill::{aligned_stride, clipped_suffix, lemma_clipped};
use crate::shape::{
    dims_agree, joins, joint_rank, joint_shape, joint_stride, lemma_unit_suffix, lemma_whole, place,
    positive, product, suffix, unit_suffix, weighted,
};
use vstd::prelude::*;

verus! {

/// **A stride is the number of elements behind a dimension**: the product of the dimensions that
/// follow.
pub proof fn law_suffix_is_product(shape: Seq<i64>, d: int)
    requires
        0 <= d <= shape.len(),
    ensures
        suffix(shape, d) == product(shape.skip(d)),
        positive(shape) ==> unit_suffix(shape, d) == product(shape.skip(d)),
        positive(shape) ==> clipped_suffix(shape, d) == product(shape.skip(d)),
{
    lemma_suffix_skip(shape, d, 0);
    lemma_whole(shape.skip(d));
    lemma_unit_suffix(shape, d);
    lemma_clipped(shape, d);
}

proof fn lemma_suffix_skip(shape: Seq<i64>, d: int, k: int)
    requires
        0 <= d,
        0 <= k,
        d + k <= shape.len(),
    ensures
        suffix(shape.skip(d), k) == suffix(shape, d + k),
    decreases shape.len() - d - k,
{
    if d + k < shape.len() {
        lemma_suffix_skip(shape, d, k + 1);
        assert(shape.skip(d)[k] == shape[d + k]);
    }
}

/// Dimension `k` from the right, one where there is none.
pub open spec fn from_right(s: Seq<i64>, k: int) -> int {
    if 0 <= k < s.len() {
        s[s.len() - 1 - k] as int
    } else {
        1
    }
}

/// **Shapes broadcast from the right**: the result has the larger rank, and each of its dimensions
/// is that of both operands, or of the one that does not have a single element there.
pub proof fn law_joint_shape(a: Seq<i64>, b: Seq<i64>, k: int)
    requires
        joins(a, b),
        0 <= k < joint_shape(a, b).len(),
    ensures
        joint_shape(a, b).len() >= a.len(),
        joint_shape(a, b).len() >= b.len(),
        joint_shape(a, b).len() == a.len() || joint_shape(a, b).len() == b.len(),
        ({
            let (x, y, z) = (from_right(a, k), from_right(b, k), from_right(joint_shape(a, b), k));
            &&& x == y || x == 1 || y == 1
            &&& x == 1 ==> z == y
            &&& y == 1 ==> z == x
            &&& x == y ==> z == x
        }),
{
    let r = joint_rank(a, b);
    assert(dims_agree(a, b, r, r - 1 - k));
}

/// Shapes broadcast in either order.
pub proof fn law_joint_shape_commutes(a: Seq<i64>, b: Seq<i64>)
    requires
        joins(a, b),
    ensures
        joint_shape(a, b) == joint_shape(b, a),
{
    let r = joint_rank(a, b);
    assert forall|k: int| 0 <= k < r implies joint_shape(a, b)[k] == joint_shape(b, a)[k] by {
        assert(dims_agree(a, b, r, k));
    }
    assert(joint_shape(a, b) =~= joint_shape(b, a));
}

/// The coordinates in an operand of shape `a` that belong to coordinates in a result of rank `r`:
/// the last ones, and zero along a dimension of one element.
pub open spec fn operand_coords(a: Seq<i64>, r: int, x: spec_fn(int) -> int) -> spec_fn(int) -> int {
    |d: int|
        if a[d] == 1 {
            0
        } else {
            x(d + (r - a.len()))
        }
}

/// **Strides of a broadcast lead to the element of the operand**: coordinates in the result, each
/// times its stride, add up to the place of the operand's own coordinates.
pub proof fn law_joint_strides(a: Seq<i64>, r: int, x: spec_fn(int) -> int)
    requires
        positive(a),
        a.len() <= r,
    ensures
        weighted(x, |k: int| joint_stride(a, r, k), r) == place(a, operand_coords(a, r, x)),
{
    lemma_strides(a, r, x, a.len() as int);
}

proof fn lemma_strides(a: Seq<i64>, r: int, x: spec_fn(int) -> int, n: int)
    requires
        positive(a),
        a.len() <= r,
        0 <= n <= a.len(),
    ensures
        weighted(x, |k: int| joint_stride(a, r, k), n + (r - a.len())) == weighted(
            operand_coords(a, r, x),
            |k: int| suffix(a, k + 1),
            n,
        ),
    decreases n,
{
    let w = |k: int| joint_stride(a, r, k);
    if n > 0 {
        lemma_strides(a, r, x, n - 1);
        lemma_unit_suffix(a, n);
        let k = n - 1 + (r - a.len());
        assert(x(k) * 0 == 0);
    } else {
        lemma_missing(a, r, x, r - a.len());
    }
}

proof fn lemma_missing(a: Seq<i64>, r: int, x: spec_fn(int) -> int, n: int)
    requires
        0 <= n <= r - a.len(),
    ensures
        weighted(x, |k: int| joint_stride(a, r, k), n) == 0,
    decreases n,
{
    if n > 0 {
        lemma_missing(a, r, x, n - 1);
        assert(x(n - 1) * 0 == 0);
    }
}

/// The same of strides that are aligned with the shape of the result, to which the operand
/// broadcasts.
pub proof fn law_aligned_strides(a: Seq<i64>, out: Seq<i64>, k: int)
    requires
        positive(a),
        a.len() <= out.len(),
        0 <= k < out.len(),
        k >= out.len() - a.len() ==> a[k - (out.len() - a.len())] == 1 || a[k - (out.len()
            - a.len())] == out[k],
    ensures
        aligned_stride(a, out, k) == joint_stride(a, out.len() as int, k),
{
    let d = k - (out.len() - a.len());
    if d >= 0 {
        lemma_unit_suffix(a, d + 1);
        lemma_clipped(a, d + 1);
    }
}

} // verus!
