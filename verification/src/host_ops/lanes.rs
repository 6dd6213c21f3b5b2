//! Lanes of a tensor: the elements that differ in one coordinate only.
//!
//! Along an axis of `c` elements with `inner` elements behind each, lane `r` holds the places
//! `lane_place(c, inner, r, 0)`, `lane_place(c, inner, r, 1)` and so on.

use crate::shape::{
    lemma_split_product, lemma_suffix_bound, lemma_suffix_positive, lemma_whole, positive, product,
    suffix,
};
use vstd::prelude::*;

verus! {

/// The place of element `k` of lane `r`.
pub open spec fn lane_place(c: int, inner: int, r: int, k: int) -> int {
    r / inner * (c * inner) + r % inner + k * inner
}

/// The lane of the element at place `o`.
pub open spec fn lane_of(c: int, inner: int, o: int) -> int {
    o / (c * inner) * inner + o % inner
}

/// The position of the element at place `o` in its lane.
pub open spec fn step_of(c: int, inner: int, o: int) -> int {
    o / inner % c
}

/// Lane and position lead back to the place.
pub proof fn lemma_lane_of(c: int, inner: int, o: int)
    requires
        c > 0,
        inner > 0,
        o >= 0,
    ensures
        lane_place(c, inner, lane_of(c, inner, o), step_of(c, inner, o)) == o,
        0 <= step_of(c, inner, o) < c,
        0 <= lane_of(c, inner, o),
{
    let q = o / (c * inner);
    let i = o % inner;
    assert(c * inner > 0) by (nonlinear_arith)
        requires
            c > 0,
            inner > 0,
    ;
    assert(q >= 0) by (nonlinear_arith)
        requires
            o >= 0,
            c * inner > 0,
            q == o / (c * inner),
    ;
    assert(q * inner >= 0) by (nonlinear_arith)
        requires
            q >= 0,
            inner > 0,
    ;
    let r = q * inner + i;
    assert(r / inner == q && r % inner == i) by (nonlinear_arith)
        requires
            r == q * inner + i,
            0 <= i < inner,
    ;
    vstd::arithmetic::div_mod::lemma_mod_breakdown(o, inner, c);
    vstd::arithmetic::div_mod::lemma_fundamental_div_mod(o, c * inner);
    let k = o / inner % c;
    assert(inner * c == c * inner) by (nonlinear_arith);
    assert(inner * k == k * inner) by (nonlinear_arith);
    assert((c * inner) * q == q * (c * inner)) by (nonlinear_arith);
}

/// The place leads back to lane and position.
pub proof fn lemma_lane_place(c: int, inner: int, r: int, k: int)
    requires
        inner > 0,
        0 <= r,
        0 <= k < c,
    ensures
        lane_of(c, inner, lane_place(c, inner, r, k)) == r,
        step_of(c, inner, lane_place(c, inner, r, k)) == k,
        lane_place(c, inner, r, k) >= 0,
{
    let q = r / inner;
    let i = r % inner;
    let o = lane_place(c, inner, r, k);
    vstd::arithmetic::div_mod::lemma_fundamental_div_mod(r, inner);
    assert(q >= 0) by (nonlinear_arith)
        requires
            r >= 0,
            inner > 0,
            q == r / inner,
    ;
    assert(0 <= i + k * inner && i + k * inner < c * inner && 0 <= k * inner) by (nonlinear_arith)
        requires
            0 <= i < inner,
            0 <= k < c,
    ;
    let b = c * inner;
    let t = i + k * inner;
    assert(q * b >= 0) by (nonlinear_arith)
        requires
            q >= 0,
            b > 0,
    ;
    assert(o / b == q) by (nonlinear_arith)
        requires
            o == q * b + t,
            0 <= t < b,
    ;
    assert(q * (c * inner) == (q * c) * inner) by (nonlinear_arith);
    let m = q * c + k;
    assert(o == m * inner + i) by (nonlinear_arith)
        requires
            o == (q * c) * inner + i + k * inner,
            m == q * c + k,
    ;
    assert(o / inner == m && o % inner == i) by (nonlinear_arith)
        requires
            o == m * inner + i,
            0 <= i < inner,
    ;
    assert(m % c == k) by (nonlinear_arith)
        requires
            m == q * c + k,
            0 <= k < c,
    ;
    assert(inner * q == q * inner) by (nonlinear_arith);
}

/// Lanes below `rows` have their elements among the first `rows * c` places, and the other
/// way round.
pub proof fn lemma_lane_bound(c: int, inner: int, outer: int, r: int, k: int)
    requires
        inner > 0,
        outer >= 0,
        0 <= r < outer * inner,
        0 <= k < c,
    ensures
        0 <= lane_place(c, inner, r, k) < outer * (c * inner),
{
    let q = r / inner;
    let i = r % inner;
    assert(0 <= q < outer) by (nonlinear_arith)
        requires
            0 <= r < outer * inner,
            inner > 0,
            q == r / inner,
    ;
    let b = c * inner;
    assert(0 <= i + k * inner && i + k * inner < b) by (nonlinear_arith)
        requires
            0 <= i < inner,
            0 <= k < c,
            b == c * inner,
    ;
    let t = i + k * inner;
    assert(0 <= q * b && q * b + t < outer * b) by (nonlinear_arith)
        requires
            0 <= q < outer,
            0 <= t < b,
    ;
}

/// Every place belongs to one of the lanes.
pub proof fn lemma_lane_count(c: int, inner: int, outer: int, o: int)
    requires
        c > 0,
        inner > 0,
        0 <= o < outer * (c * inner),
    ensures
        0 <= lane_of(c, inner, o) < outer * inner,
{
    let b = c * inner;
    assert(b > 0) by (nonlinear_arith)
        requires
            c > 0,
            inner > 0,
            b == c * inner,
    ;
    let q = o / b;
    let i = o % inner;
    assert(0 <= q < outer) by (nonlinear_arith)
        requires
            0 <= o < outer * b,
            b > 0,
            q == o / b,
    ;
    assert(0 <= q * inner && q * inner + i < outer * inner) by (nonlinear_arith)
        requires
            0 <= q < outer,
            0 <= i < inner,
    ;
}

/// The dimensions before, at and behind an axis make up the whole tensor.
pub proof fn lemma_axis_split(shape: Seq<i64>, axis: int)
    requires
        positive(shape),
        0 <= axis < shape.len(),
    ensures
        product(shape.take(axis)) >= 1,
        suffix(shape, axis + 1) >= 1,
        shape[axis] >= 1,
        product(shape) == product(shape.take(axis)) * (shape[axis] * suffix(shape, axis + 1)),
        product(shape) / (shape[axis] as int) == product(shape.take(axis)) * suffix(shape, axis + 1),
        1 <= shape[axis] * suffix(shape, axis + 1) <= product(shape),
{
    lemma_split_product(shape, axis);
    lemma_suffix_positive(shape, axis + 1);
    lemma_suffix_positive(shape, axis);
    lemma_suffix_positive(shape, 0);
    lemma_whole(shape);
    let a = product(shape.take(axis));
    let c = shape[axis] as int;
    let i = suffix(shape, axis + 1);
    let n = product(shape);
    lemma_suffix_bound(shape, axis);
    assert(a >= 1) by (nonlinear_arith)
        requires
            a * (c * i) >= 1,
            c * i >= 1,
    ;
    assert(a * (c * i) == (a * i) * c) by (nonlinear_arith);
    let m = a * i;
    assert(n / c == m) by (nonlinear_arith)
        requires
            n == m * c,
            c >= 1,
    ;
}

} // verus!
